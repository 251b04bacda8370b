//! Signature model: byte tokens, window matching, and offset enumeration.

use vstd::prelude::*;
use vstd::slice::slice_subrange;

verus! {

/// One position of a signature: a literal byte value or a wildcard that
/// matches any byte.
#[derive(Clone, Copy, Debug, PartialEq, Eq, Structural)]
pub enum ByteSearch {
    Byte(u8),
    WildCard,
}

/// Whether one token accepts one byte.
pub open spec fn token_matches(t: ByteSearch, b: u8) -> bool {
    match t {
        ByteSearch::Byte(v) => v == b,
        ByteSearch::WildCard => true,
    }
}

/// Whether a signature matches a window of exactly its own length.
pub open spec fn sig_matches(sig: Seq<ByteSearch>, window: Seq<u8>) -> bool {
    &&& sig.len() == window.len()
    &&& forall|i: int| 0 <= i < sig.len() ==> token_matches(sig[i], window[i])
}

/// Whether a signature matches the haystack at start offset `o`.
pub open spec fn matches_at_offset(sig: Seq<ByteSearch>, hay: Seq<u8>, o: int) -> bool {
    &&& 0 <= o
    &&& o + sig.len() <= hay.len()
    &&& forall|i: int| 0 <= i < sig.len() ==> token_matches(sig[i], hay[o + i])
}

/// The ascending sequence of all matching offsets below `n`.
pub open spec fn offsets_upto(sig: Seq<ByteSearch>, hay: Seq<u8>, n: int) -> Seq<usize>
    decreases n,
{
    if n <= 0 {
        Seq::empty()
    } else if matches_at_offset(sig, hay, n - 1) {
        offsets_upto(sig, hay, n - 1).push((n - 1) as usize)
    } else {
        offsets_upto(sig, hay, n - 1)
    }
}

/// The ascending sequence of every offset where the signature matches.
pub open spec fn all_offsets(sig: Seq<ByteSearch>, hay: Seq<u8>) -> Seq<usize> {
    offsets_upto(sig, hay, hay.len() - sig.len() + 1)
}

/// What `find` may return: the full ascending offset list when any offset
/// matches, and nothing otherwise.
pub open spec fn find_result(sig: Seq<ByteSearch>, hay: Seq<u8>, r: Option<Seq<usize>>) -> bool {
    match r {
        Some(v) => v == all_offsets(sig, hay) && v.len() > 0,
        None => all_offsets(sig, hay).len() == 0,
    }
}

/// An ordered, fixed-length sequence of byte tokens.
#[derive(Clone, Debug)]
pub struct BytePattern(pub Vec<ByteSearch>);

impl View for BytePattern {
    type V = Seq<ByteSearch>;

    open spec fn view(&self) -> Seq<ByteSearch> {
        self.0@
    }
}

/// Lower hex digit for a value below sixteen.
pub open spec fn hex_char(v: u8) -> u8 {
    if v < 10 {
        (48 + v) as u8
    } else {
        (87 + v) as u8
    }
}

/// Display form of one token: two hex digits, or two question marks.
pub open spec fn render_token(t: ByteSearch) -> Seq<u8> {
    match t {
        ByteSearch::Byte(v) => seq![hex_char(v / 16), hex_char(v % 16)],
        ByteSearch::WildCard => seq![63u8, 63u8],
    }
}

/// Display form of a whole signature: tokens joined by single spaces.
pub open spec fn render_sig(sig: Seq<ByteSearch>) -> Seq<u8>
    decreases sig.len(),
{
    if sig.len() == 0 {
        Seq::empty()
    } else if sig.len() == 1 {
        render_token(sig[0])
    } else {
        render_token(sig[0]) + seq![32u8] + render_sig(sig.drop_first())
    }
}

impl BytePattern {
    /// A well-formed signature holds at least one token.
    pub open spec fn wf(&self) -> bool {
        self@.len() >= 1
    }

    /// How many tokens the signature holds.
    pub fn len(&self) -> (n: usize)
        ensures
            n == self@.len(),
    {
        self.0.len()
    }

    /// Test the signature against a window of exactly its own length.
    pub fn match_pattern(&self, bytes: &[u8]) -> (r: bool)
        requires
            bytes@.len() == self@.len(),
        ensures
            r == sig_matches(self@, bytes@),
    {
        let n = self.0.len();
        let mut i: usize = 0;
        while i < n
            invariant
                n == self@.len(),
                bytes@.len() == n,
                0 <= i <= n,
                forall|j: int| 0 <= j < i ==> token_matches(self@[j], bytes@[j]),
            decreases n - i,
        {
            match self.0[i] {
                ByteSearch::Byte(v) => {
                    if v != bytes[i] {
                        return false;
                    }
                },
                ByteSearch::WildCard => {},
            }
            i = i + 1;
        }
        true
    }

    /// Every start offset in the haystack where the signature matches, in
    /// ascending order; nothing when no offset matches (in particular when
    /// the signature is longer than the haystack).
    pub fn find(&self, haystack: &[u8]) -> (r: Option<Vec<usize>>)
        requires
            self.wf(),
        ensures
            match r {
                Some(v) => find_result(self@, haystack@, Some(v@)),
                None => find_result(self@, haystack@, None::<Seq<usize>>),
            },
    {
        let n = self.0.len();
        if n > haystack.len() {
            return None;
        }
        let last = haystack.len() - n;
        let mut offsets: Vec<usize> = Vec::new();
        let mut i: usize = 0;
        while i <= last
            invariant
                n == self@.len(),
                1 <= n <= haystack@.len(),
                haystack@.len() <= usize::MAX,
                last == haystack@.len() - n,
                0 <= i <= last + 1,
                offsets@ == offsets_upto(self@, haystack@, i as int),
            decreases last + 1 - i,
        {
            let window = slice_subrange(haystack, i, i + n);
            let hit = self.match_pattern(window);
            proof {
                assert(window@ =~= haystack@.subrange(i as int, i + n));
                assert(sig_matches(self@, window@) == matches_at_offset(
                    self@,
                    haystack@,
                    i as int,
                )) by {
                    if sig_matches(self@, window@) {
                        assert(forall|k: int|
                            0 <= k < n ==> token_matches(self@[k], haystack@[i + k]) && token_matches(
                                self@[k],
                                window@[k],
                            ));
                    }
                    if matches_at_offset(self@, haystack@, i as int) {
                        assert(forall|k: int|
                            0 <= k < n ==> token_matches(self@[k], window@[k])
                                && token_matches(self@[k], haystack@[i + k]));
                    }
                }
            }
            if hit {
                offsets.push(i);
            }
            i = i + 1;
        }
        proof {
            assert(offsets@ == all_offsets(self@, haystack@));
        }
        if offsets.len() != 0 {
            Some(offsets)
        } else {
            None
        }
    }

    /// The display form of the signature: two hex digits or `??` per token,
    /// space-separated.
    pub fn render(&self) -> (r: Vec<u8>)
        ensures
            r@ == render_sig(self@),
    {
        let mut r: Vec<u8> = Vec::new();
        let n = self.0.len();
        let mut i: usize = 0;
        while i < n
            invariant
                n == self@.len(),
                0 <= i <= n,
                r@ == render_sig(self@.take(i as int)),
            decreases n - i,
        {
            if i > 0 {
                r.push(32);
            }
            match self.0[i] {
                ByteSearch::Byte(v) => {
                    r.push(hex_char_exec(v / 16));
                    r.push(hex_char_exec(v % 16));
                },
                ByteSearch::WildCard => {
                    r.push(63);
                    r.push(63);
                },
            }
            proof {
                lemma_render_sig_snoc(self@.take(i as int), self@[i as int]);
                assert(self@.take(i as int).push(self@[i as int]) =~= self@.take(i + 1));
                assert(r@ =~= render_sig(self@.take(i + 1)));
            }
            i = i + 1;
        }
        proof {
            assert(self@.take(n as int) =~= self@);
        }
        r
    }
}

proof fn lemma_offsets_upto_characterize(sig: Seq<ByteSearch>, hay: Seq<u8>, n: int)
    requires
        hay.len() <= usize::MAX,
    ensures
        forall|k: int|
            0 <= k < offsets_upto(sig, hay, n).len() ==> offsets_upto(sig, hay, n)[k] < n
                && matches_at_offset(sig, hay, offsets_upto(sig, hay, n)[k] as int),
        forall|a: int, b: int|
            0 <= a < b < offsets_upto(sig, hay, n).len() ==> offsets_upto(sig, hay, n)[a]
                < offsets_upto(sig, hay, n)[b],
        forall|o: int|
            0 <= o < n && matches_at_offset(sig, hay, o) ==> offsets_upto(sig, hay, n).contains(
                o as usize,
            ),
    decreases n,
{
    if n > 0 {
        lemma_offsets_upto_characterize(sig, hay, n - 1);
        let prev = offsets_upto(sig, hay, n - 1);
        let cur = offsets_upto(sig, hay, n);
        if matches_at_offset(sig, hay, n - 1) {
            assert(cur == prev.push((n - 1) as usize));
            assert(forall|k: int| 0 <= k < prev.len() ==> cur[k] == prev[k]);
            assert(cur[cur.len() - 1] == (n - 1) as usize);
        } else {
            assert(cur == prev);
        }
        assert forall|o: int| 0 <= o < n && matches_at_offset(sig, hay, o) implies cur.contains(
            o as usize,
        ) by {
            if o < n - 1 {
                assert(prev.contains(o as usize));
                let k = choose|k: int| 0 <= k < prev.len() && prev[k] == o as usize;
                assert(cur[k] == o as usize);
            } else {
                assert(matches_at_offset(sig, hay, n - 1));
                assert(cur[cur.len() - 1] == o as usize);
            }
        }
    }
}

/// Every offset that `find` can report starts a full window inside the
/// haystack: `o + sig.len() <= hay.len()`.
pub proof fn lemma_offsets_in_range(sig: Seq<ByteSearch>, hay: Seq<u8>)
    requires
        hay.len() <= usize::MAX,
    ensures
        forall|k: int|
            0 <= k < all_offsets(sig, hay).len() ==> all_offsets(sig, hay)[k] + sig.len()
                <= hay.len(),
{
    lemma_offsets_upto_characterize(sig, hay, hay.len() - sig.len() + 1);
}

/// The reported offsets are strictly ascending, so they hold no duplicate.
pub proof fn lemma_offsets_strictly_ascending(sig: Seq<ByteSearch>, hay: Seq<u8>)
    requires
        hay.len() <= usize::MAX,
    ensures
        forall|a: int, b: int|
            0 <= a < b < all_offsets(sig, hay).len() ==> all_offsets(sig, hay)[a] < all_offsets(
                sig,
                hay,
            )[b],
{
    lemma_offsets_upto_characterize(sig, hay, hay.len() - sig.len() + 1);
}

/// An offset is reported if and only if the signature matches there: the
/// offset list is sound and complete.
pub proof fn lemma_offsets_exact(sig: Seq<ByteSearch>, hay: Seq<u8>)
    requires
        hay.len() <= usize::MAX,
    ensures
        forall|o: usize|
            all_offsets(sig, hay).contains(o) <==> matches_at_offset(sig, hay, o as int),
{
    let n = hay.len() - sig.len() + 1;
    lemma_offsets_upto_characterize(sig, hay, n);
    assert forall|o: usize| matches_at_offset(sig, hay, o as int) implies all_offsets(
        sig,
        hay,
    ).contains(o) by {
        assert(o < n);
    }
}

/// A signature longer than the haystack matches nowhere: `find` reports no
/// offset and raises no error.
pub proof fn lemma_longer_than_haystack(sig: Seq<ByteSearch>, hay: Seq<u8>)
    requires
        sig.len() > hay.len(),
    ensures
        all_offsets(sig, hay).len() == 0,
        find_result(sig, hay, None::<Seq<usize>>),
{
}

/// A signature of `L` wildcards against a haystack of length `H >= L`
/// matches at exactly the offsets `0 ..= H - L`.
pub proof fn lemma_all_wildcards(sig: Seq<ByteSearch>, hay: Seq<u8>)
    requires
        forall|i: int| 0 <= i < sig.len() ==> sig[i] is WildCard,
        sig.len() <= hay.len(),
        hay.len() <= usize::MAX,
    ensures
        all_offsets(sig, hay).len() == hay.len() - sig.len() + 1,
        forall|k: int| 0 <= k < all_offsets(sig, hay).len() ==> all_offsets(sig, hay)[k] == k,
{
    lemma_wildcards_upto(sig, hay, hay.len() - sig.len() + 1);
}

proof fn lemma_wildcards_upto(sig: Seq<ByteSearch>, hay: Seq<u8>, n: int)
    requires
        forall|i: int| 0 <= i < sig.len() ==> sig[i] is WildCard,
        sig.len() <= hay.len(),
        hay.len() <= usize::MAX,
        n <= hay.len() - sig.len() + 1,
    ensures
        offsets_upto(sig, hay, n).len() == if n <= 0 {
            0int
        } else {
            n
        },
        forall|k: int| 0 <= k < offsets_upto(sig, hay, n).len() ==> offsets_upto(sig, hay, n)[k] == k,
    decreases n,
{
    if n > 0 {
        lemma_wildcards_upto(sig, hay, n - 1);
        assert(matches_at_offset(sig, hay, n - 1));
        let prev = offsets_upto(sig, hay, n - 1);
        let cur = offsets_upto(sig, hay, n);
        assert(cur == prev.push((n - 1) as usize));
        assert(prev.len() == n - 1);
        assert(forall|k: int| 0 <= k < n - 1 ==> cur[k] == prev[k]);
        assert(cur[n - 1] == (n - 1) as usize);
    }
}

/// Searching the same signature in the same haystack always yields the same
/// outcome: any two results that `find` can return are equal.
pub proof fn lemma_find_deterministic(
    sig: Seq<ByteSearch>,
    hay: Seq<u8>,
    r1: Option<Seq<usize>>,
    r2: Option<Seq<usize>>,
)
    requires
        find_result(sig, hay, r1),
        find_result(sig, hay, r2),
    ensures
        r1 == r2,
{
}

/// Lower hex digit of a value below sixteen.
fn hex_char_exec(v: u8) -> (r: u8)
    requires
        v < 16,
    ensures
        r == hex_char(v),
{
    if v < 10 {
        48 + v
    } else {
        87 + v
    }
}

/// Appending one token appends a separator and its display form.
proof fn lemma_render_sig_snoc(sig: Seq<ByteSearch>, t: ByteSearch)
    ensures
        render_sig(sig.push(t)) == if sig.len() == 0 {
            render_token(t)
        } else {
            render_sig(sig) + seq![32u8] + render_token(t)
        },
    decreases sig.len(),
{
    let s = sig.push(t);
    if sig.len() == 0 {
        assert(s.len() == 1);
        assert(s[0] == t);
    } else {
        assert(s.len() >= 2);
        assert(s[0] == sig[0]);
        assert(s.drop_first() =~= sig.drop_first().push(t));
        lemma_render_sig_snoc(sig.drop_first(), t);
        if sig.len() == 1 {
            assert(render_sig(sig) == render_token(sig[0]));
            assert(render_sig(s) =~= render_sig(sig) + seq![32u8] + render_token(t));
        } else {
            assert(render_sig(s) =~= render_sig(sig) + seq![32u8] + render_token(t));
        }
    }
}

} // verus!
