//! Signature sets: a named group of signatures loaded from one textual
//! source, searched in order against one haystack.

use vstd::prelude::*;
use crate::parse::MalformedSignatureToken;
use crate::parse::line_ok;
use crate::parse::reports_first_bad_token;
use crate::parse::split_on;
use crate::parse::tokens_of_line;
use crate::sig::ByteSearch;
use crate::sig::BytePattern;
use crate::sig::all_offsets;
use crate::sig::render_sig;

verus! {

/// The lines of a signature source: its pieces between newlines.
pub open spec fn line_texts(data: Seq<u8>) -> Seq<Seq<u8>> {
    split_on(data, 10, Seq::empty())
}

/// Whether every non-empty line is an acceptable signature line.
pub open spec fn lines_ok(lines: Seq<Seq<u8>>) -> bool {
    forall|i: int| 0 <= i < lines.len() ==> lines[i].len() == 0 || line_ok(lines[i])
}

/// The signatures of a source text: one per non-empty line, in order.
pub open spec fn sigs_of_lines(lines: Seq<Seq<u8>>) -> Seq<Seq<ByteSearch>>
    decreases lines.len(),
{
    if lines.len() == 0 {
        Seq::empty()
    } else if lines[0].len() == 0 {
        sigs_of_lines(lines.drop_first())
    } else {
        seq![tokens_of_line(lines[0])] + sigs_of_lines(lines.drop_first())
    }
}

/// A named, ordered collection of signatures from one source.
pub struct Pattern {
    pub name: String,
    pub patterns: Vec<BytePattern>,
}

/// The mathematical content of a signature set.
pub ghost struct PatternView {
    pub name: Seq<char>,
    pub patterns: Seq<Seq<ByteSearch>>,
}

impl PatternView {
    /// Every signature of a well-formed set holds at least one token.
    pub open spec fn wf(&self) -> bool {
        forall|i: int| 0 <= i < self.patterns.len() ==> self.patterns[i].len() >= 1
    }
}

impl View for Pattern {
    type V = PatternView;

    open spec fn view(&self) -> PatternView {
        PatternView {
            name: self.name@,
            patterns: self.patterns@.map_values(|p: BytePattern| p@),
        }
    }
}

/// One report: a signature of a set matched the haystack at these offsets.
pub struct MatchReport {
    pub set_name: String,
    pub pattern_text: Vec<u8>,
    pub offsets: Vec<usize>,
}

/// The mathematical content of one report.
pub ghost struct MatchReportView {
    pub set_name: Seq<char>,
    pub pattern_text: Seq<u8>,
    pub offsets: Seq<usize>,
}

impl View for MatchReport {
    type V = MatchReportView;

    open spec fn view(&self) -> MatchReportView {
        MatchReportView {
            set_name: self.set_name@,
            pattern_text: self.pattern_text@,
            offsets: self.offsets@,
        }
    }
}

/// The reports a search of these signatures emits: one per signature with at
/// least one match, in signature order, with the set's name, the signature's
/// display form and the full ascending offset list.
pub open spec fn reports_for(name: Seq<char>, sigs: Seq<Seq<ByteSearch>>, hay: Seq<u8>) -> Seq<
    MatchReportView,
>
    decreases sigs.len(),
{
    if sigs.len() == 0 {
        Seq::empty()
    } else if all_offsets(sigs[0], hay).len() > 0 {
        seq![
            MatchReportView {
                set_name: name,
                pattern_text: render_sig(sigs[0]),
                offsets: all_offsets(sigs[0], hay),
            },
        ] + reports_for(name, sigs.drop_first(), hay)
    } else {
        reports_for(name, sigs.drop_first(), hay)
    }
}

/// The reports of a whole partition: each set's reports in load order.
pub open spec fn partition_reports(sets: Seq<PatternView>, hay: Seq<u8>) -> Seq<MatchReportView>
    decreases sets.len(),
{
    if sets.len() == 0 {
        Seq::empty()
    } else {
        reports_for(sets[0].name, sets[0].patterns, hay) + partition_reports(
            sets.drop_first(),
            hay,
        )
    }
}

impl Pattern {
    /// Build a named signature set from one source text: one signature per
    /// non-empty line. The first malformed token anywhere aborts the load
    /// with a structured error naming the token and its line.
    pub fn from_text(name: String, data: &[u8]) -> (r: Result<Pattern, MalformedSignatureToken>)
        ensures
            r is Ok <==> lines_ok(line_texts(data@)),
            r matches Ok(p) ==> p@.name == name@ && p@.patterns == sigs_of_lines(line_texts(data@))
                && p@.wf(),
            r matches Err(e) ==> exists|j: int|
                0 <= j < line_texts(data@).len() && line_texts(data@)[j].len() > 0 && !line_ok(
                    line_texts(data@)[j],
                ) && reports_first_bad_token(e, line_texts(data@)[j]) && (forall|k: int|
                    0 <= k < j ==> line_texts(data@)[k].len() == 0 || line_ok(line_texts(data@)[k])),
    {
        let ghost all = line_texts(data@);
        let lines = crate::parse::split_bytes(data, 10);
        let mut patterns: Vec<BytePattern> = Vec::new();
        let mut i: usize = 0;
        proof {
            assert(all.skip(0) =~= all);
            assert(patterns@.map_values(|p: BytePattern| p@) + sigs_of_lines(all)
                =~= sigs_of_lines(all));
        }
        while i < lines.len()
            invariant
                all == line_texts(data@),
                all == lines@.map_values(|l: Vec<u8>| l@),
                0 <= i <= lines@.len(),
                sigs_of_lines(all) == patterns@.map_values(|p: BytePattern| p@) + sigs_of_lines(
                    all.skip(i as int),
                ),
                forall|k: int| 0 <= k < i ==> all[k].len() == 0 || line_ok(all[k]),
                forall|k: int| 0 <= k < patterns@.len() ==> patterns@[k]@.len() >= 1,
            decreases lines@.len() - i,
        {
            let ghost rest = all.skip(i as int);
            proof {
                assert(rest[0] == all[i as int]);
                assert(rest.drop_first() =~= all.skip(i + 1));
            }
            let line = &lines[i];
            if line.len() > 0 {
                match BytePattern::parse(line.as_slice()) {
                    Ok(p) => {
                        patterns.push(p);
                        proof {
                            assert(patterns@.map_values(|p: BytePattern| p@)
                                =~= patterns@.drop_last().map_values(|p: BytePattern| p@).push(
                                patterns@.last()@,
                            ));
                            assert(patterns@.map_values(|p: BytePattern| p@) + sigs_of_lines(
                                all.skip(i + 1),
                            ) =~= patterns@.drop_last().map_values(|p: BytePattern| p@)
                                + sigs_of_lines(rest));
                        }
                    },
                    Err(e) => {
                        return Err(e);
                    },
                }
            }
            i = i + 1;
        }
        proof {
            assert(all.skip(all.len() as int) =~= Seq::<Seq<u8>>::empty());
            assert(patterns@.map_values(|p: BytePattern| p@) + sigs_of_lines(
                all.skip(all.len() as int),
            ) =~= patterns@.map_values(|p: BytePattern| p@));
        }
        Ok(Pattern { name, patterns })
    }

    /// Search every signature of the set in order; emit one report per
    /// signature with at least one match.
    pub fn search(&self, haystack: &[u8]) -> (r: Vec<MatchReport>)
        requires
            self@.wf(),
        ensures
            r@.map_values(|m: MatchReport| m@) == reports_for(self@.name, self@.patterns, haystack@),
    {
        let ghost sigs = self@.patterns;
        let ghost name = self@.name;
        let mut reports: Vec<MatchReport> = Vec::new();
        let mut i: usize = 0;
        proof {
            assert(sigs.skip(0) =~= sigs);
            assert(reports@.map_values(|m: MatchReport| m@) + reports_for(name, sigs, haystack@)
                =~= reports_for(name, sigs, haystack@));
        }
        while i < self.patterns.len()
            invariant
                sigs == self@.patterns,
                name == self@.name,
                self@.wf(),
                0 <= i <= self.patterns@.len(),
                sigs.len() == self.patterns@.len(),
                reports_for(name, sigs, haystack@) == reports@.map_values(|m: MatchReport| m@)
                    + reports_for(name, sigs.skip(i as int), haystack@),
            decreases self.patterns@.len() - i,
        {
            let ghost rest = sigs.skip(i as int);
            proof {
                assert(rest[0] == sigs[i as int]);
                assert(rest.drop_first() =~= sigs.skip(i + 1));
                assert(sigs[i as int] == self.patterns@[i as int]@);
            }
            let p = &self.patterns[i];
            match p.find(haystack) {
                Some(offsets) => {
                    let report = MatchReport {
                        set_name: self.name.clone(),
                        pattern_text: p.render(),
                        offsets,
                    };
                    reports.push(report);
                    proof {
                        assert(reports@.map_values(|m: MatchReport| m@)
                            =~= reports@.drop_last().map_values(|m: MatchReport| m@).push(
                            reports@.last()@,
                        ));
                        assert(reports@.map_values(|m: MatchReport| m@) + reports_for(
                            name,
                            sigs.skip(i + 1),
                            haystack@,
                        ) =~= reports@.drop_last().map_values(|m: MatchReport| m@) + reports_for(
                            name,
                            rest,
                            haystack@,
                        ));
                    }
                },
                None => {},
            }
            i = i + 1;
        }
        proof {
            assert(sigs.skip(sigs.len() as int) =~= Seq::<Seq<ByteSearch>>::empty());
            assert(reports@.map_values(|m: MatchReport| m@) + reports_for(
                name,
                sigs.skip(sigs.len() as int),
                haystack@,
            ) =~= reports@.map_values(|m: MatchReport| m@));
        }
        reports
    }
}

/// Search every set of one worker's partition in its stored order against
/// the shared haystack, concatenating the sets' reports.
pub fn run_partition(sets: &Vec<Pattern>, haystack: &[u8]) -> (r: Vec<MatchReport>)
    requires
        forall|i: int| 0 <= i < sets@.len() ==> (#[trigger] sets@[i])@.wf(),
    ensures
        r@.map_values(|m: MatchReport| m@) == partition_reports(
            sets@.map_values(|p: Pattern| p@),
            haystack@,
        ),
{
    let ghost views = sets@.map_values(|p: Pattern| p@);
    let mut reports: Vec<MatchReport> = Vec::new();
    let mut i: usize = 0;
    proof {
        assert(views.skip(0) =~= views);
        assert(reports@.map_values(|m: MatchReport| m@) + partition_reports(views, haystack@)
            =~= partition_reports(views, haystack@));
    }
    while i < sets.len()
        invariant
            views == sets@.map_values(|p: Pattern| p@),
            forall|k: int| 0 <= k < sets@.len() ==> (#[trigger] sets@[k])@.wf(),
            0 <= i <= sets@.len(),
            partition_reports(views, haystack@) == reports@.map_values(|m: MatchReport| m@)
                + partition_reports(views.skip(i as int), haystack@),
        decreases sets@.len() - i,
    {
        let ghost rest = views.skip(i as int);
        proof {
            assert(rest[0] == views[i as int]);
            assert(rest.drop_first() =~= views.skip(i + 1));
            assert(views[i as int] == sets@[i as int]@);
        }
        let mut part = sets[i].search(haystack);
        let ghost part_views = part@.map_values(|m: MatchReport| m@);
        reports.append(&mut part);
        proof {
            assert(reports@.map_values(|m: MatchReport| m@) =~= reports@.subrange(
                0,
                reports@.len() - part_views.len(),
            ).map_values(|m: MatchReport| m@) + part_views);
            assert(reports@.map_values(|m: MatchReport| m@) + partition_reports(
                views.skip(i + 1),
                haystack@,
            ) =~= reports@.subrange(0, reports@.len() - part_views.len()).map_values(
                |m: MatchReport| m@,
            ) + partition_reports(rest, haystack@));
        }
        i = i + 1;
    }
    proof {
        assert(views.skip(views.len() as int) =~= Seq::<PatternView>::empty());
        assert(reports@.map_values(|m: MatchReport| m@) + partition_reports(
            views.skip(views.len() as int),
            haystack@,
        ) =~= reports@.map_values(|m: MatchReport| m@));
    }
    reports
}

} // verus!
