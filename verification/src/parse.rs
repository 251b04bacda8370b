//! Textual signature parsing: space-separated tokens, each two hex digits
//! (case-insensitive) or a wildcard marker.

use vstd::prelude::*;
use vstd::slice::slice_to_vec;
use crate::sig::ByteSearch;
use crate::sig::BytePattern;
use crate::sig::hex_char;
use crate::sig::render_sig;
use crate::sig::render_token;

verus! {

/// Whether a byte is an ASCII hex digit.
pub open spec fn is_hex_digit(b: u8) -> bool {
    (48 <= b && b <= 57) || (97 <= b && b <= 102) || (65 <= b && b <= 70)
}

/// Value of an ASCII hex digit.
pub open spec fn hex_val(b: u8) -> u8 {
    if 48 <= b && b <= 57 {
        (b - 48) as u8
    } else if 97 <= b {
        (b - 87) as u8
    } else {
        (b - 55) as u8
    }
}

/// The wildcard marker: one or two question marks.
pub open spec fn is_wildcard_text(t: Seq<u8>) -> bool {
    t == seq![63u8] || t == seq![63u8, 63u8]
}

/// A literal byte written as exactly two hex digits.
pub open spec fn is_byte_text(t: Seq<u8>) -> bool {
    t.len() == 2 && is_hex_digit(t[0]) && is_hex_digit(t[1])
}

/// Whether a token's text is acceptable.
pub open spec fn valid_token_text(t: Seq<u8>) -> bool {
    is_wildcard_text(t) || is_byte_text(t)
}

/// The token a valid text stands for.
pub open spec fn token_of_text(t: Seq<u8>) -> ByteSearch {
    if is_wildcard_text(t) {
        ByteSearch::WildCard
    } else {
        ByteSearch::Byte((hex_val(t[0]) * 16 + hex_val(t[1])) as u8)
    }
}

/// Split on a separator byte, carrying the piece read so far; a trailing or
/// doubled separator yields an empty piece.
pub open spec fn split_on(s: Seq<u8>, sep: u8, cur: Seq<u8>) -> Seq<Seq<u8>>
    decreases s.len(),
{
    if s.len() == 0 {
        seq![cur]
    } else if s[0] == sep {
        seq![cur] + split_on(s.drop_first(), sep, Seq::empty())
    } else {
        split_on(s.drop_first(), sep, cur.push(s[0]))
    }
}

/// The token texts of one line: its pieces between single spaces.
pub open spec fn token_texts(s: Seq<u8>) -> Seq<Seq<u8>> {
    split_on(s, 32, Seq::empty())
}

/// Whether every token of the line is acceptable.
pub open spec fn line_ok(s: Seq<u8>) -> bool {
    forall|i: int| 0 <= i < token_texts(s).len() ==> valid_token_text(token_texts(s)[i])
}

/// The token sequence an acceptable line stands for.
pub open spec fn tokens_of_line(s: Seq<u8>) -> Seq<ByteSearch> {
    token_texts(s).map_values(|t: Seq<u8>| token_of_text(t))
}

/// The structured parse error: a token that is neither the wildcard marker
/// nor two hex digits, together with the line it stood on.
#[derive(Debug)]
pub struct MalformedSignatureToken {
    pub token: Vec<u8>,
    pub line: Vec<u8>,
}

/// Whether `e` reports the first unacceptable token of `line`.
pub open spec fn reports_first_bad_token(e: MalformedSignatureToken, line: Seq<u8>) -> bool {
    &&& e.line@ == line
    &&& exists|j: int|
        0 <= j < token_texts(line).len() && !valid_token_text(token_texts(line)[j]) && e.token@
            == token_texts(line)[j] && (forall|k: int|
            0 <= k < j ==> valid_token_text(token_texts(line)[k]))
}

/// Splitting yields at least one piece.
proof fn lemma_split_nonempty(s: Seq<u8>, sep: u8, cur: Seq<u8>)
    ensures
        split_on(s, sep, cur).len() >= 1,
    decreases s.len(),
{
    if s.len() != 0 && s[0] != sep {
        lemma_split_nonempty(s.drop_first(), sep, cur.push(s[0]));
    }
}

/// Whether a byte is an ASCII hex digit, and its value if so.
fn hex_digit_value(b: u8) -> (r: Option<u8>)
    ensures
        r is Some <==> is_hex_digit(b),
        r matches Some(v) ==> v == hex_val(b) && v < 16,
{
    if 48 <= b && b <= 57 {
        Some(b - 48)
    } else if 97 <= b && b <= 102 {
        Some(b - 87)
    } else if 65 <= b && b <= 70 {
        Some(b - 55)
    } else {
        None
    }
}

/// Cut a byte string at every occurrence of the separator.
pub(crate) fn split_bytes(data: &[u8], sep: u8) -> (r: Vec<Vec<u8>>)
    ensures
        r@.map_values(|p: Vec<u8>| p@) == split_on(data@, sep, Seq::empty()),
{
    let ghost whole = split_on(data@, sep, Seq::empty());
    let mut pieces: Vec<Vec<u8>> = Vec::new();
    let mut cur: Vec<u8> = Vec::new();
    let mut i: usize = 0;
    proof {
        assert(data@.skip(0) =~= data@);
        assert(pieces@.map_values(|p: Vec<u8>| p@) + split_on(data@, sep, cur@) =~= whole);
    }
    while i < data.len()
        invariant
            0 <= i <= data@.len(),
            whole == split_on(data@, sep, Seq::empty()),
            whole == pieces@.map_values(|p: Vec<u8>| p@) + split_on(
                data@.skip(i as int),
                sep,
                cur@,
            ),
        decreases data@.len() - i,
    {
        let ghost rest = data@.skip(i as int);
        proof {
            assert(rest[0] == data@[i as int]);
            assert(rest.drop_first() =~= data@.skip(i + 1));
        }
        if data[i] == sep {
            let done = cur;
            cur = Vec::new();
            pieces.push(done);
            proof {
                assert(pieces@.map_values(|p: Vec<u8>| p@) =~= pieces@.drop_last().map_values(
                    |p: Vec<u8>| p@,
                ).push(done@));
            }
        } else {
            cur.push(data[i]);
        }
        i = i + 1;
    }
    proof {
        assert(data@.skip(data@.len() as int) =~= Seq::<u8>::empty());
        assert(split_on(data@.skip(data@.len() as int), sep, cur@) == seq![cur@]);
    }
    let last = cur;
    pieces.push(last);
    proof {
        assert(pieces@.map_values(|p: Vec<u8>| p@) =~= pieces@.drop_last().map_values(
            |p: Vec<u8>| p@,
        ).push(last@));
        assert(pieces@.map_values(|p: Vec<u8>| p@) =~= whole);
    }
    pieces
}

/// One token from its text, or nothing where the text is unacceptable.
fn parse_token(piece: &[u8]) -> (r: Option<ByteSearch>)
    ensures
        r is Some <==> valid_token_text(piece@),
        r matches Some(t) ==> t == token_of_text(piece@),
{
    if piece.len() == 1 && piece[0] == 63 {
        proof {
            assert(piece@ =~= seq![63u8]);
        }
        Some(ByteSearch::WildCard)
    } else if piece.len() == 2 && piece[0] == 63 && piece[1] == 63 {
        proof {
            assert(piece@ =~= seq![63u8, 63u8]);
        }
        Some(ByteSearch::WildCard)
    } else if piece.len() == 2 {
        proof {
            assert(piece@ != seq![63u8]);
            if piece@ == seq![63u8, 63u8] {
                assert(piece@[0] == 63u8 && piece@[1] == 63u8);
            }
        }
        match (hex_digit_value(piece[0]), hex_digit_value(piece[1])) {
            (Some(hi), Some(lo)) => Some(ByteSearch::Byte(hi * 16 + lo)),
            _ => None,
        }
    } else {
        proof {
            if piece@ == seq![63u8] {
                assert(piece@.len() == 1 && piece@[0] == 63u8);
            }
            if piece@ == seq![63u8, 63u8] {
                assert(piece@.len() == 2);
            }
        }
        None
    }
}

impl BytePattern {
    /// Parse one textual signature line: space-separated tokens, each two
    /// hex digits or a wildcard marker. A malformed token is returned as a
    /// structured error carrying the token and the line.
    pub fn parse(line: &[u8]) -> (r: Result<BytePattern, MalformedSignatureToken>)
        ensures
            r is Ok <==> line_ok(line@),
            r matches Ok(p) ==> p@ == tokens_of_line(line@) && p.wf(),
            r matches Err(e) ==> reports_first_bad_token(e, line@),
    {
        let ghost texts = token_texts(line@);
        let pieces = split_bytes(line, 32);
        let mut tokens: Vec<ByteSearch> = Vec::new();
        let mut j: usize = 0;
        while j < pieces.len()
            invariant
                texts == token_texts(line@),
                texts == pieces@.map_values(|p: Vec<u8>| p@),
                0 <= j <= pieces@.len(),
                tokens@ == texts.take(j as int).map_values(|t: Seq<u8>| token_of_text(t)),
                forall|k: int| 0 <= k < j ==> valid_token_text(texts[k]),
            decreases pieces@.len() - j,
        {
            match parse_token(pieces[j].as_slice()) {
                Some(t) => {
                    tokens.push(t);
                    proof {
                        assert(texts.take(j + 1).map_values(|t: Seq<u8>| token_of_text(t))
                            =~= texts.take(j as int).map_values(|t: Seq<u8>| token_of_text(t)).push(
                            token_of_text(texts[j as int]),
                        ));
                    }
                },
                None => {
                    let token = slice_to_vec(pieces[j].as_slice());
                    let whole = slice_to_vec(line);
                    return Err(MalformedSignatureToken { token, line: whole });
                },
            }
            j = j + 1;
        }
        proof {
            assert(texts.take(texts.len() as int) =~= texts);
            lemma_split_nonempty(line@, 32, Seq::empty());
        }
        Ok(BytePattern(tokens))
    }
}

/// Parsing a rendered signature gives back the same token sequence: the
/// display form round-trips, with hex case normalized to lower case.
pub proof fn lemma_parse_render_roundtrip(sig: Seq<ByteSearch>)
    requires
        sig.len() >= 1,
    ensures
        line_ok(render_sig(sig)),
        tokens_of_line(render_sig(sig)) == sig,
    decreases sig.len(),
{
    lemma_token_text_roundtrip(sig[0]);
    if sig.len() == 1 {
        lemma_split_no_sep(render_token(sig[0]), 32, Seq::empty());
        assert(Seq::<u8>::empty() + render_token(sig[0]) =~= render_token(sig[0]));
        assert(token_texts(render_sig(sig)) == seq![render_token(sig[0])]);
        assert(tokens_of_line(render_sig(sig)) =~= sig);
    } else {
        lemma_parse_render_roundtrip(sig.drop_first());
        let head = render_token(sig[0]);
        let rest = render_sig(sig.drop_first());
        assert(render_sig(sig) == head + seq![32u8] + rest);
        lemma_split_before_sep(head, 32, rest, Seq::empty());
        assert((head + seq![32u8] + rest).skip(head.len() as int + 1) =~= rest);
        assert(Seq::<u8>::empty() + head =~= head);
        assert(token_texts(render_sig(sig)) == seq![head] + token_texts(rest));
        let texts = token_texts(render_sig(sig));
        assert(forall|i: int|
            0 <= i < texts.len() ==> valid_token_text(texts[i])) by {
            assert(texts[0] == head);
            assert(forall|i: int|
                1 <= i < texts.len() ==> texts[i] == token_texts(rest)[i - 1]);
        }
        assert(tokens_of_line(render_sig(sig)) =~= sig) by {
            assert(tokens_of_line(render_sig(sig))[0] == token_of_text(head));
            assert(forall|i: int|
                1 <= i < texts.len() ==> tokens_of_line(render_sig(sig))[i] == token_of_text(
                    token_texts(rest)[i - 1],
                ) && token_of_text(token_texts(rest)[i - 1]) == tokens_of_line(rest)[i - 1]);
        }
    }
}

/// The display form of one token is itself an acceptable token text and
/// names the same token.
proof fn lemma_token_text_roundtrip(t: ByteSearch)
    ensures
        render_token(t).len() == 2,
        forall|i: int| 0 <= i < 2 ==> render_token(t)[i] != 32u8,
        valid_token_text(render_token(t)),
        token_of_text(render_token(t)) == t,
{
    match t {
        ByteSearch::WildCard => {
            assert(render_token(t) == seq![63u8, 63u8]);
        },
        ByteSearch::Byte(v) => {
            let hi = v / 16;
            let lo = v % 16;
            assert(hi < 16 && lo < 16);
            assert(is_hex_digit(hex_char(hi)) && hex_val(hex_char(hi)) == hi);
            assert(is_hex_digit(hex_char(lo)) && hex_val(hex_char(lo)) == lo);
            assert(render_token(t)[0] == hex_char(hi) && render_token(t)[1] == hex_char(lo));
            assert(render_token(t) != seq![63u8]);
            if render_token(t) == seq![63u8, 63u8] {
                assert(render_token(t)[0] == 63u8);
                assert(false);
            }
            assert(hi * 16 + lo == v);
        },
    }
}

/// A piece free of the separator splits as one whole piece.
proof fn lemma_split_no_sep(t: Seq<u8>, sep: u8, cur: Seq<u8>)
    requires
        forall|i: int| 0 <= i < t.len() ==> t[i] != sep,
    ensures
        split_on(t, sep, cur) == seq![cur + t],
    decreases t.len(),
{
    if t.len() == 0 {
        assert(cur + t =~= cur);
    } else {
        lemma_split_no_sep(t.drop_first(), sep, cur.push(t[0]));
        assert(cur.push(t[0]) + t.drop_first() =~= cur + t);
    }
}

/// A separator after a clean piece cuts exactly there.
proof fn lemma_split_before_sep(t: Seq<u8>, sep: u8, rest: Seq<u8>, cur: Seq<u8>)
    requires
        forall|i: int| 0 <= i < t.len() ==> t[i] != sep,
    ensures
        split_on(t + seq![sep] + rest, sep, cur) == seq![cur + t] + split_on(
            rest,
            sep,
            Seq::empty(),
        ),
    decreases t.len(),
{
    let s = t + seq![sep] + rest;
    if t.len() == 0 {
        assert(s[0] == sep);
        assert(s.drop_first() =~= rest);
        assert(cur + t =~= cur);
    } else {
        assert(s[0] == t[0]);
        assert(s.drop_first() =~= t.drop_first() + seq![sep] + rest);
        lemma_split_before_sep(t.drop_first(), sep, rest, cur.push(t[0]));
        assert(cur.push(t[0]) + t.drop_first() =~= cur + t);
    }
}

} // verus!
