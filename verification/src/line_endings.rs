//! Line terminators carry no meaning of their own.
//!
//! Two texts are aligned where the second is the first with more line
//! terminators added at the end and, unless the alignment is exact, with
//! line terminators, one or more, in the place of each line feed. The
//! theorems of this module say that aligned texts parse alike, production
//! by production, and draw two conclusions: a manifest needs no line
//! terminator at its end, and a manifest with `\r\n` for each `\n` parses
//! to the same record.

use vstd::prelude::*;
use crate::combinator::{
    has_prefix_at, is_blank, is_line_break, lemma_char_sets, lemma_span_until,
    lemma_span_until_unique, lemma_span_while, lemma_span_while_unique, span_until, span_while,
    BLANKS, CRLF, KEY_END, LOWER_END, UPPER_END, WHITESPACES,
};
use crate::error::Failure;
use crate::grammar::{
    arrow_at, block, char_at, comment, comment_body, dependency, directive, directives, entries,
    entry_start, exclude_body, godebug_body, line_end, line_value, listing, manifest, map_value,
    replace_body, replacement, replacement_target, require_body, retract_body, retraction,
    setting, skip_blanks, skip_line_breaks, skip_whitespace, version_range, version_single,
    word_end, DirectiveView, Entry, Parsed,
};
use crate::settings::{lemma_merge_keys, merge};
use crate::{
    record, GoModView, ModuleDependency, ModuleDependencyView, ModuleReplacement,
    ModuleReplacementView, ModuleRetract, ModuleRetractView, ReplacementView, Setting,
};

verus! {

/// Two texts and, for each position of the first, its place in the second.
pub struct Alignment {
    /// The first text.
    pub left: Seq<char>,
    /// The second text.
    pub right: Seq<char>,
    /// The place in `right` of each position of `left`.
    pub place: spec_fn(int) -> int,
    /// Whether the line feeds of `left` stand unchanged in `right`, so that
    /// only the end of `right` is new.
    pub exact: bool,
}

impl Alignment {
    /// Whether the character `c` of `left` may stand in `right` as
    /// something else: a line feed, unless the alignment is exact.
    pub open spec fn varies(self, c: char) -> bool {
        !self.exact && c == '\n'
    }

    /// What holds at the character `i` of `left`: a line feed that varies
    /// stands in `right` as line terminators, one or more; every other
    /// character stands as itself.
    pub open spec fn step(self, i: int) -> bool {
        let here = (self.place)(i);
        let next = (self.place)(i + 1);
        &&& 0 <= here < next <= (self.place)(self.left.len() as int)
        &&& if self.varies(self.left[i]) {
            forall|k: int| here <= k < next ==> is_line_break(#[trigger] self.right[k])
        } else {
            next == here + 1 && self.right[here] == self.left[i]
        }
    }

    /// Whether the two texts are aligned.
    pub open spec fn well_formed(self) -> bool {
        &&& (self.place)(0) == 0
        &&& (self.place)(self.left.len() as int) <= self.right.len()
        &&& forall|k: int|
            (self.place)(self.left.len() as int) <= k < self.right.len() ==> is_line_break(
                #[trigger] self.right[k],
            )
        &&& forall|i: int| 0 <= i < self.left.len() ==> #[trigger] self.step(i)
    }

    /// Whether the position `j` of `right` stands for the position `i` of
    /// `left`. The end of `left` stands for every position of `right` from
    /// its own place on.
    pub open spec fn pairs(self, i: int, j: int) -> bool {
        &&& 0 <= i <= self.left.len()
        &&& j == (self.place)(i) || (i == self.left.len() && (self.place)(i) <= j
            <= self.right.len())
    }

    /// Paired positions lie in their texts, and hold the same character or
    /// both a line terminator or the end.
    pub proof fn lemma_pairs(self, i: int, j: int)
        requires
            self.well_formed(),
            self.pairs(i, j),
        ensures
            0 <= j <= self.right.len(),
            i < self.left.len() ==> j < self.right.len(),
            i < self.left.len() && !self.varies(self.left[i]) ==> self.right[j] == self.left[i]
                && self.pairs(i + 1, j + 1),
            i < self.left.len() && !is_line_break(self.left[i]) ==> self.right[j] == self.left[i]
                && self.pairs(i + 1, j + 1),
            i < self.left.len() && is_line_break(self.left[i]) ==> is_line_break(self.right[j]),
            i == self.left.len() && j < self.right.len() ==> is_line_break(self.right[j]),
            i < self.left.len() ==> self.pairs(i + 1, (self.place)(i + 1)) && j < (self.place)(
                i + 1,
            ),
    {
        if i < self.left.len() {
            assert(self.step(i));
        }
        if self.left.len() > 0 {
            assert(self.step(self.left.len() - 1));
        }
    }
}

/// A run that starts inside a stretch of characters of `set` goes on to
/// where the run from the end of the stretch ends.
pub proof fn lemma_span_while_through(t: Seq<char>, from: int, to: int, set: Seq<char>)
    requires
        0 <= from <= to <= t.len(),
        forall|k: int| from <= k < to ==> set.contains(#[trigger] t[k]),
    ensures
        span_while(t, from, set) == span_while(t, to, set),
    decreases to - from,
{
    if from < to {
        lemma_span_while_through(t, from + 1, to, set);
    }
}

/// A run outside `stops` that starts inside a stretch without a character
/// of `stops` goes on to where the run from the end of the stretch ends.
pub proof fn lemma_span_until_through(t: Seq<char>, from: int, to: int, stops: Seq<char>)
    requires
        0 <= from <= to <= t.len(),
        forall|k: int| from <= k < to ==> !stops.contains(#[trigger] t[k]),
    ensures
        span_until(t, from, stops) == span_until(t, to, stops),
    decreases to - from,
{
    if from < to {
        lemma_span_until_through(t, from + 1, to, stops);
    }
}

/// Whether `set` holds both line terminators.
pub open spec fn with_line_breaks(set: Seq<char>) -> bool {
    set.contains('\r') && set.contains('\n')
}

/// Whether `set` holds neither line terminator.
pub open spec fn without_line_breaks(set: Seq<char>) -> bool {
    !set.contains('\r') && !set.contains('\n')
}

/// Which of the named sets hold the line terminators.
pub proof fn lemma_sets_and_line_breaks()
    ensures
        without_line_breaks(BLANKS@),
        with_line_breaks(CRLF@),
        with_line_breaks(WHITESPACES@),
        without_line_breaks(KEY_END@),
        without_line_breaks(LOWER_END@),
        without_line_breaks(UPPER_END@),
{
    lemma_char_sets();
}

impl Alignment {
    /// Runs of a set without line terminators have the same length in both
    /// texts.
    pub proof fn lemma_run_in_line(self, i: int, j: int, set: Seq<char>)
        requires
            self.well_formed(),
            self.pairs(i, j),
            without_line_breaks(set),
        ensures
            self.pairs(span_while(self.left, i, set), span_while(self.right, j, set)),
            span_while(self.right, j, set) - j == span_while(self.left, i, set) - i,
        decreases self.left.len() - i,
    {
        self.lemma_pairs(i, j);
        if i < self.left.len() && set.contains(self.left[i]) {
            self.lemma_run_in_line(i + 1, j + 1, set);
        }
    }

    /// Runs of a set with the line terminators end at paired positions,
    /// and at the end of one text only where at the end of the other.
    pub proof fn lemma_run_over_lines(self, i: int, j: int, set: Seq<char>)
        requires
            self.well_formed(),
            self.pairs(i, j),
            with_line_breaks(set),
        ensures
            self.pairs(span_while(self.left, i, set), span_while(self.right, j, set)),
            span_while(self.left, i, set) == self.left.len() <==> span_while(self.right, j, set)
                == self.right.len(),
        decreases self.left.len() - i,
    {
        self.lemma_pairs(i, j);
        if i < self.left.len() {
            if set.contains(self.left[i]) {
                if is_line_break(self.left[i]) {
                    let next = (self.place)(i + 1);
                    assert(self.step(i));
                    assert forall|k: int| j <= k < next implies set.contains(
                        #[trigger] self.right[k],
                    ) by {
                        if self.varies(self.left[i]) {
                            assert(is_line_break(self.right[k]));
                        }
                    }
                    lemma_span_while_through(self.right, j, next, set);
                    self.lemma_run_over_lines(i + 1, next, set);
                } else {
                    self.lemma_run_over_lines(i + 1, j + 1, set);
                }
            }
        } else {
            assert forall|k: int| j <= k < self.right.len() implies set.contains(
                #[trigger] self.right[k],
            ) by {
                assert(is_line_break(self.right[k]));
            }
            lemma_span_while_unique(self.right, j, set, self.right.len() as int);
        }
    }

    /// A stretch that ends at a line terminator, or at the end, is the same
    /// in both texts.
    pub proof fn lemma_stretch_in_line(self, i: int, j: int, stops: Seq<char>)
        requires
            self.well_formed(),
            self.pairs(i, j),
            with_line_breaks(stops),
        ensures
            self.pairs(span_until(self.left, i, stops), span_until(self.right, j, stops)),
            span_until(self.right, j, stops) - j == span_until(self.left, i, stops) - i,
            self.right.subrange(j, span_until(self.right, j, stops)) == self.left.subrange(
                i,
                span_until(self.left, i, stops),
            ),
        decreases self.left.len() - i,
    {
        self.lemma_pairs(i, j);
        lemma_span_until(self.left, i, stops);
        lemma_span_until(self.right, j, stops);
        if i < self.left.len() && !stops.contains(self.left[i]) {
            self.lemma_stretch_in_line(i + 1, j + 1, stops);
            let end = span_until(self.left, i, stops);
            let other = span_until(self.right, j, stops);
            lemma_span_until(self.left, i + 1, stops);
            lemma_span_until(self.right, j + 1, stops);
            assert(self.right.subrange(j, other) =~= seq![self.right[j]] + self.right.subrange(
                j + 1,
                other,
            ));
            assert(self.left.subrange(i, end) =~= seq![self.left[i]] + self.left.subrange(
                i + 1,
                end,
            ));
        } else {
            assert(self.right.subrange(j, j) =~= self.left.subrange(i, i));
        }
    }

    /// A stretch that may run over line terminators ends at paired
    /// positions, at the end of one text only where at the end of the
    /// other, and is empty in one text only where empty in the other,
    /// unless it reaches the end. Where it holds no line feed that varies,
    /// it is the same in both texts.
    pub proof fn lemma_stretch_over_lines(self, i: int, j: int, stops: Seq<char>)
        requires
            self.well_formed(),
            self.pairs(i, j),
            without_line_breaks(stops),
        ensures
            self.pairs(span_until(self.left, i, stops), span_until(self.right, j, stops)),
            span_until(self.left, i, stops) == self.left.len() <==> span_until(
                self.right,
                j,
                stops,
            ) == self.right.len(),
            span_until(self.left, i, stops) < self.left.len() ==> (span_until(self.left, i, stops)
                == i <==> span_until(self.right, j, stops) == j),
            span_until(self.left, i, stops) < self.left.len() && (forall|k: int|
                i <= k < span_until(self.left, i, stops) ==> !self.varies(#[trigger] self.left[k]))
                ==> self.right.subrange(j, span_until(self.right, j, stops))
                == self.left.subrange(i, span_until(self.left, i, stops)),
        decreases self.left.len() - i,
    {
        self.lemma_pairs(i, j);
        lemma_span_until(self.left, i, stops);
        lemma_span_until(self.right, j, stops);
        let end = span_until(self.left, i, stops);
        let other = span_until(self.right, j, stops);
        if i < self.left.len() {
            if !stops.contains(self.left[i]) {
                let next = (self.place)(i + 1);
                assert(self.step(i));
                assert forall|k: int| j <= k < next implies !stops.contains(
                    #[trigger] self.right[k],
                ) by {
                    if self.varies(self.left[i]) {
                        assert(is_line_break(self.right[k]));
                    }
                }
                lemma_span_until_through(self.right, j, next, stops);
                self.lemma_stretch_over_lines(i + 1, next, stops);
                lemma_span_until(self.left, i + 1, stops);
                lemma_span_until(self.right, next, stops);
                if end < self.left.len() && (forall|k: int|
                    i <= k < end ==> !self.varies(#[trigger] self.left[k])) {
                    assert(!self.varies(self.left[i]));
                    assert(next == j + 1);
                    assert(self.right.subrange(j, other) =~= seq![self.right[j]]
                        + self.right.subrange(j + 1, other));
                    assert(self.left.subrange(i, end) =~= seq![self.left[i]] + self.left.subrange(
                        i + 1,
                        end,
                    ));
                }
            } else {
                assert(self.right.subrange(j, j) =~= self.left.subrange(i, i));
            }
        } else {
            assert forall|k: int| j <= k < self.right.len() implies !stops.contains(
                #[trigger] self.right[k],
            ) by {
                assert(is_line_break(self.right[k]));
            }
            lemma_span_until_unique(self.right, j, stops, self.right.len() as int);
        }
    }

    /// A character that ends no line stands at a position of one text
    /// exactly where it stands at the paired position of the other.
    pub proof fn lemma_char(self, i: int, j: int, c: char)
        requires
            self.well_formed(),
            self.pairs(i, j),
            !is_line_break(c),
        ensures
            (0 <= i < self.left.len() && self.left[i] == c) <==> (0 <= j < self.right.len()
                && self.right[j] == c),
            0 <= i < self.left.len() && self.left[i] == c ==> self.pairs(i + 1, j + 1),
    {
        self.lemma_pairs(i, j);
    }

    /// Two characters that end no line stand at a position of one text
    /// exactly where they stand at the paired position of the other.
    pub proof fn lemma_prefix(self, i: int, j: int, lit: Seq<char>)
        requires
            self.well_formed(),
            self.pairs(i, j),
            lit.len() == 2,
            !is_line_break(lit[0]),
            !is_line_break(lit[1]),
        ensures
            has_prefix_at(self.left, i, lit) <==> has_prefix_at(self.right, j, lit),
            has_prefix_at(self.left, i, lit) ==> self.pairs(i + 2, j + 2),
    {
        self.lemma_pairs(i, j);
        if has_prefix_at(self.left, i, lit) {
            assert(self.left.subrange(i, i + 2)[0] == lit[0]);
            assert(self.left.subrange(i, i + 2)[1] == lit[1]);
            self.lemma_pairs(i + 1, j + 1);
            assert(self.right.subrange(j, j + 2) =~= lit);
        }
        if has_prefix_at(self.right, j, lit) {
            assert(self.right.subrange(j, j + 2)[0] == lit[0]);
            assert(self.right.subrange(j, j + 2)[1] == lit[1]);
            assert(i < self.left.len());
            self.lemma_pairs(i + 1, j + 1);
            assert(i + 1 < self.left.len());
            assert(self.left.subrange(i, i + 2) =~= lit);
        }
    }
}

/// Whether `text` holds no line feed.
pub open spec fn no_line_feed(text: Seq<char>) -> bool {
    forall|k: int| 0 <= k < text.len() ==> (#[trigger] text[k]) != '\n'
}

/// Whether the key of a setting holds no line feed.
pub open spec fn setting_steady(value: Setting) -> bool {
    no_line_feed(value.0)
}

/// Whether the bounds of a retracted range hold no line feed.
pub open spec fn retract_steady(value: ModuleRetractView) -> bool {
    match value {
        ModuleRetractView::Single(_) => true,
        ModuleRetractView::Range(lower, upper) => no_line_feed(lower) && no_line_feed(upper),
    }
}

impl Alignment {
    /// Whether what the texts read at paired positions is alike: both
    /// fail, and for the same kind of reason, or both succeed and end at
    /// paired positions, with the same value where `steady` holds of it or
    /// the alignment is exact.
    pub open spec fn alike<T>(
        self,
        left: Parsed<T>,
        right: Parsed<T>,
        steady: spec_fn(T) -> bool,
    ) -> bool {
        match left {
            Ok((value, end)) => right matches Ok((other, place)) && self.pairs(end, place) && (
            self.exact || steady(value) ==> other == value),
            Err(failure) => right matches Err(other) && other.kind == failure.kind,
        }
    }

    /// Comments whose markers stand at paired positions have the same text
    /// and end at paired positions.
    pub proof fn lemma_comment_body(self, i: int, j: int)
        requires
            self.well_formed(),
            self.pairs(i, j),
            has_prefix_at(self.left, i, "//"@),
        ensures
            comment_body(self.right, j).0 == comment_body(self.left, i).0,
            self.pairs(comment_body(self.left, i).1, comment_body(self.right, j).1),
    {
        reveal_strlit("//");
        lemma_sets_and_line_breaks();
        self.lemma_prefix(i, j, "//"@);
        self.lemma_pairs(i + 2, j + 2);
        let text = if 0 <= i + 2 < self.left.len() && is_blank(self.left[i + 2]) {
            i + 3
        } else {
            i + 2
        };
        let other = if 0 <= j + 2 < self.right.len() && is_blank(self.right[j + 2]) {
            j + 3
        } else {
            j + 2
        };
        assert(self.pairs(text, other));
        self.lemma_stretch_in_line(text, other, CRLF@);
        self.lemma_run_over_lines(line_end(self.left, text), line_end(self.right, other), CRLF@);
    }

    /// The texts hold a comment at paired positions alike.
    pub proof fn lemma_comment(self, i: int, j: int)
        requires
            self.well_formed(),
            self.pairs(i, j),
        ensures
            match comment(self.left, i) {
                Some((text, end)) => comment(self.right, j) matches Some((other, place))
                    && other == text && self.pairs(end, place),
                None => comment(self.right, j) is None,
            },
    {
        reveal_strlit("//");
        lemma_sets_and_line_breaks();
        self.lemma_run_in_line(i, j, BLANKS@);
        let marker = skip_blanks(self.left, i);
        let other = skip_blanks(self.right, j);
        self.lemma_prefix(marker, other, "//"@);
        if has_prefix_at(self.left, marker, "//"@) {
            self.lemma_comment_body(marker, other);
        }
    }

    /// The texts hold a line value at paired positions alike.
    pub proof fn lemma_line_value(self, i: int, j: int)
        requires
            self.well_formed(),
            self.pairs(i, j),
        ensures
            self.alike(
                line_value(self.left, i),
                line_value(self.right, j),
                |value: Seq<char>| true,
            ),
    {
        lemma_sets_and_line_breaks();
        self.lemma_run_in_line(i, j, BLANKS@);
        let start = skip_blanks(self.left, i);
        let other = skip_blanks(self.right, j);
        self.lemma_stretch_in_line(start, other, CRLF@);
        self.lemma_run_over_lines(line_end(self.left, start), line_end(self.right, other), CRLF@);
    }

    /// Where the left text ends, no entry starts in either text.
    pub proof fn lemma_no_entry_at_the_end(self, j: int)
        requires
            self.well_formed(),
            self.pairs(self.left.len() as int, j),
        ensures
            !entry_start(self.left, self.left.len() as int),
            word_end(self.right, j) == j,
            !char_at(self.right, j, ')'),
            !char_at(self.right, j, '['),
            span_until(self.right, j, KEY_END@) == self.right.len(),
    {
        lemma_sets_and_line_breaks();
        lemma_char_sets();
        self.lemma_pairs(self.left.len() as int, j);
        self.lemma_stretch_over_lines(self.left.len() as int, j, KEY_END@);
    }

    /// The texts hold a setting at paired positions alike.
    pub proof fn lemma_setting(self, i: int, j: int)
        requires
            self.well_formed(),
            self.pairs(i, j),
        ensures
            self.alike(
                setting(self.left, i),
                setting(self.right, j),
                |value: Setting| setting_steady(value),
            ),
    {
        lemma_sets_and_line_breaks();
        lemma_char_sets();
        self.lemma_pairs(i, j);
        if i == self.left.len() {
            self.lemma_no_entry_at_the_end(j);
        } else {
            self.lemma_char(i, j, ')');
            self.lemma_stretch_over_lines(i, j, KEY_END@);
            let key_end = span_until(self.left, i, KEY_END@);
            let other = span_until(self.right, j, KEY_END@);
            lemma_span_until(self.left, i, KEY_END@);
            lemma_span_until(self.right, j, KEY_END@);
            if entry_start(self.left, i) && i < key_end < self.left.len() {
                self.lemma_char(key_end, other, '=');
                self.lemma_stretch_in_line(key_end + 1, other + 1, WHITESPACES@);
                let key = self.left.subrange(i, key_end);
                if self.exact || no_line_feed(key) {
                    assert forall|k: int| i <= k < key_end implies !self.varies(
                        #[trigger] self.left[k],
                    ) by {
                        assert(key[k - i] == self.left[k]);
                    }
                }
            }
        }
    }

    /// The texts hold a dependency at paired positions alike.
    pub proof fn lemma_dependency(self, i: int, j: int)
        requires
            self.well_formed(),
            self.pairs(i, j),
        ensures
            self.alike(
                dependency(self.left, i),
                dependency(self.right, j),
                |value: ModuleDependencyView| true,
            ),
    {
        lemma_sets_and_line_breaks();
        self.lemma_pairs(i, j);
        if i == self.left.len() {
            self.lemma_no_entry_at_the_end(j);
        } else {
            self.lemma_char(i, j, ')');
            self.lemma_stretch_in_line(i, j, WHITESPACES@);
            let path_end = word_end(self.left, i);
            let path_place = word_end(self.right, j);
            self.lemma_run_in_line(path_end, path_place, BLANKS@);
            let version = skip_blanks(self.left, path_end);
            let version_place = skip_blanks(self.right, path_place);
            self.lemma_stretch_in_line(version, version_place, WHITESPACES@);
            self.lemma_comment(word_end(self.left, version), word_end(self.right, version_place));
        }
    }

    /// The texts hold the target of a replacement alike where the arrows
    /// stand at paired positions.
    pub proof fn lemma_replacement_target(self, i: int, j: int)
        requires
            self.well_formed(),
            self.pairs(i, j),
            has_prefix_at(self.left, i, "=>"@),
        ensures
            self.alike(
                replacement_target(self.left, i),
                replacement_target(self.right, j),
                |value: ReplacementView| true,
            ),
    {
        reveal_strlit("=>");
        lemma_sets_and_line_breaks();
        self.lemma_prefix(i, j, "=>"@);
        self.lemma_run_in_line(i + 2, j + 2, BLANKS@);
        let path = skip_blanks(self.left, i + 2);
        let path_place = skip_blanks(self.right, j + 2);
        self.lemma_stretch_in_line(path, path_place, WHITESPACES@);
        let path_end = word_end(self.left, path);
        let end_place = word_end(self.right, path_place);
        self.lemma_run_in_line(path_end, end_place, BLANKS@);
        self.lemma_stretch_in_line(
            skip_blanks(self.left, path_end),
            skip_blanks(self.right, end_place),
            WHITESPACES@,
        );
    }

    /// The texts hold a replacement at paired positions alike.
    pub proof fn lemma_replacement(self, i: int, j: int)
        requires
            self.well_formed(),
            self.pairs(i, j),
        ensures
            self.alike(
                replacement(self.left, i),
                replacement(self.right, j),
                |value: ModuleReplacementView| true,
            ),
    {
        reveal_strlit("=>");
        lemma_sets_and_line_breaks();
        self.lemma_pairs(i, j);
        if i == self.left.len() {
            self.lemma_no_entry_at_the_end(j);
        } else {
            self.lemma_char(i, j, ')');
            self.lemma_stretch_in_line(i, j, WHITESPACES@);
            let path_end = word_end(self.left, i);
            let path_place = word_end(self.right, j);
            self.lemma_run_in_line(path_end, path_place, BLANKS@);
            let second = skip_blanks(self.left, path_end);
            let second_place = skip_blanks(self.right, path_place);
            self.lemma_pairs(second, second_place);
            self.lemma_stretch_in_line(second, second_place, WHITESPACES@);
            lemma_span_until(self.left, second, WHITESPACES@);
            let version_end = word_end(self.left, second);
            let version_place = word_end(self.right, second_place);
            self.lemma_run_in_line(version_end, version_place, BLANKS@);
            let arrow = skip_blanks(self.left, version_end);
            let arrow_place = skip_blanks(self.right, version_place);
            self.lemma_pairs(arrow, arrow_place);
            self.lemma_stretch_in_line(arrow, arrow_place, WHITESPACES@);
            lemma_span_until(self.left, arrow, WHITESPACES@);
            if arrow_at(self.left, second) {
                assert(has_prefix_at(self.left, second, "=>"@));
                self.lemma_replacement_target(second, second_place);
            }
            if arrow_at(self.left, arrow) {
                assert(has_prefix_at(self.left, arrow, "=>"@));
                self.lemma_replacement_target(arrow, arrow_place);
            }
        }
    }

    /// The texts hold a retracted range alike where the brackets open at
    /// paired positions.
    pub proof fn lemma_version_range(self, i: int, j: int)
        requires
            self.well_formed(),
            self.pairs(i, j),
            char_at(self.left, i, '['),
        ensures
            self.alike(
                version_range(self.left, i),
                version_range(self.right, j),
                |value: ModuleRetractView| retract_steady(value),
            ),
    {
        lemma_sets_and_line_breaks();
        lemma_char_sets();
        self.lemma_char(i, j, '[');
        self.lemma_pairs(i + 1, j + 1);
        self.lemma_stretch_over_lines(i + 1, j + 1, LOWER_END@);
        let lower_end = span_until(self.left, i + 1, LOWER_END@);
        let lower_place = span_until(self.right, j + 1, LOWER_END@);
        lemma_span_until(self.left, i + 1, LOWER_END@);
        lemma_span_until(self.right, j + 1, LOWER_END@);
        self.lemma_pairs(lower_end, lower_place);
        self.lemma_char(lower_end, lower_place, ',');
        if lower_end > i + 1 && char_at(self.left, lower_end, ',') {
            self.lemma_run_in_line(lower_end + 1, lower_place + 1, BLANKS@);
            let upper = skip_blanks(self.left, lower_end + 1);
            let upper_place = skip_blanks(self.right, lower_place + 1);
            self.lemma_pairs(upper, upper_place);
            self.lemma_stretch_over_lines(upper, upper_place, UPPER_END@);
            let upper_end = span_until(self.left, upper, UPPER_END@);
            let end_place = span_until(self.right, upper_place, UPPER_END@);
            lemma_span_until(self.left, upper, UPPER_END@);
            lemma_span_until(self.right, upper_place, UPPER_END@);
            self.lemma_pairs(upper_end, end_place);
            self.lemma_char(upper_end, end_place, ']');
            if upper_end > upper && char_at(self.left, upper_end, ']') {
                let lower = self.left.subrange(i + 1, lower_end);
                let bound = self.left.subrange(upper, upper_end);
                if self.exact || no_line_feed(lower) {
                    assert forall|k: int| i + 1 <= k < lower_end implies !self.varies(
                        #[trigger] self.left[k],
                    ) by {
                        assert(lower[k - (i + 1)] == self.left[k]);
                    }
                }
                if self.exact || no_line_feed(bound) {
                    assert forall|k: int| upper <= k < upper_end implies !self.varies(
                        #[trigger] self.left[k],
                    ) by {
                        assert(bound[k - upper] == self.left[k]);
                    }
                }
            }
        }
    }

    /// The texts hold a single retracted version at paired positions alike.
    pub proof fn lemma_version_single(self, i: int, j: int)
        requires
            self.well_formed(),
            self.pairs(i, j),
        ensures
            self.alike(
                version_single(self.left, i),
                version_single(self.right, j),
                |value: ModuleRetractView| retract_steady(value),
            ),
    {
        lemma_sets_and_line_breaks();
        self.lemma_stretch_in_line(i, j, WHITESPACES@);
    }

    /// The texts hold a retraction at paired positions alike.
    pub proof fn lemma_retraction(self, i: int, j: int)
        requires
            self.well_formed(),
            self.pairs(i, j),
        ensures
            self.alike(
                retraction(self.left, i),
                retraction(self.right, j),
                |value: ModuleRetractView| retract_steady(value),
            ),
    {
        lemma_sets_and_line_breaks();
        self.lemma_pairs(i, j);
        if i == self.left.len() {
            self.lemma_no_entry_at_the_end(j);
        } else {
            self.lemma_char(i, j, ')');
            self.lemma_char(i, j, '[');
            if entry_start(self.left, i) {
                if self.left[i] == '[' {
                    self.lemma_version_range(i, j);
                    if let Ok((value, end)) = version_range(self.left, i) {
                        self.lemma_comment(end, version_range(self.right, j)->Ok_0.1);
                    }
                } else {
                    self.lemma_version_single(i, j);
                    if let Ok((value, end)) = version_single(self.left, i) {
                        self.lemma_comment(end, version_single(self.right, j)->Ok_0.1);
                    }
                }
            }
        }
    }
}

/// A kind of entry that aligned texts hold alike.
pub trait LineEntry: Entry {
    /// Whether the parts of an entry that may run over line terminators
    /// hold no line feed.
    spec fn steady(value: Self::V) -> bool;

    /// Aligned texts hold an entry at paired positions alike.
    proof fn lemma_entry_alike(a: Alignment, i: int, j: int)
        requires
            a.well_formed(),
            a.pairs(i, j),
        ensures
            a.alike(
                Self::entry(a.left, i),
                Self::entry(a.right, j),
                |value: Self::V| Self::steady(value),
            ),
    ;
}

impl LineEntry for (String, String) {
    open spec fn steady(value: Setting) -> bool {
        setting_steady(value)
    }

    proof fn lemma_entry_alike(a: Alignment, i: int, j: int) {
        a.lemma_setting(i, j);
    }
}

impl LineEntry for ModuleDependency {
    open spec fn steady(value: ModuleDependencyView) -> bool {
        true
    }

    proof fn lemma_entry_alike(a: Alignment, i: int, j: int) {
        a.lemma_dependency(i, j);
    }
}

impl LineEntry for ModuleReplacement {
    open spec fn steady(value: ModuleReplacementView) -> bool {
        true
    }

    proof fn lemma_entry_alike(a: Alignment, i: int, j: int) {
        a.lemma_replacement(i, j);
    }
}

impl LineEntry for ModuleRetract {
    open spec fn steady(value: ModuleRetractView) -> bool {
        retract_steady(value)
    }

    proof fn lemma_entry_alike(a: Alignment, i: int, j: int) {
        a.lemma_retraction(i, j);
    }
}

/// Whether every entry of a list is steady.
pub open spec fn all_steady<E: LineEntry>(list: Seq<E::V>) -> bool {
    forall|k: int| 0 <= k < list.len() ==> E::steady(#[trigger] list[k])
}

impl DirectiveView {
    /// Whether no key of a setting and no bound of a retracted range of
    /// this directive holds a line feed.
    pub open spec fn steady(self) -> bool {
        match self {
            DirectiveView::GoDebug(settings) => all_steady::<(String, String)>(settings),
            DirectiveView::Retract(list) => all_steady::<ModuleRetract>(list),
            _ => true,
        }
    }
}

impl Alignment {
    /// The texts hold the entries of a block from paired positions on
    /// alike.
    pub proof fn lemma_entries<E: LineEntry>(self, i: int, j: int)
        requires
            self.well_formed(),
            self.pairs(i, j),
        ensures
            self.alike(
                entries::<E>(self.left, i),
                entries::<E>(self.right, j),
                |list: Seq<E::V>| all_steady::<E>(list),
            ),
        decreases self.left.len() - i,
    {
        lemma_sets_and_line_breaks();
        E::lemma_entry_alike(self, i, j);
        E::lemma_entry_bounds(self.left, i);
        E::lemma_entry_bounds(self.right, j);
        if let Ok((first, end)) = E::entry(self.left, i) {
            let (other, place) = E::entry(self.right, j)->Ok_0;
            self.lemma_run_over_lines(end, place, WHITESPACES@);
            let next = skip_whitespace(self.left, end);
            let next_place = skip_whitespace(self.right, place);
            lemma_span_while(self.left, end, WHITESPACES@);
            lemma_span_while(self.right, place, WHITESPACES@);
            if next < self.left.len() {
                self.lemma_char(next, next_place, ')');
                if self.left[next] == ')' {
                    self.lemma_run_over_lines(next + 1, next_place + 1, WHITESPACES@);
                    if self.exact || all_steady::<E>(seq![first]) {
                        assert(self.exact || E::steady(seq![first][0]));
                    }
                } else {
                    self.lemma_entries::<E>(next, next_place);
                    if let Ok((rest, after)) = entries::<E>(self.left, next) {
                        let list = seq![first] + rest;
                        if self.exact || all_steady::<E>(list) {
                            assert(self.exact || E::steady(list[0]));
                            assert forall|k: int| 0 <= k < rest.len() implies self.exact
                                || E::steady(#[trigger] rest[k]) by {
                                assert(rest[k] == list[k + 1]);
                            }
                        }
                    }
                }
            }
        }
    }

    /// The texts hold a block alike where the parentheses open at paired
    /// positions.
    pub proof fn lemma_block<E: LineEntry>(self, i: int, j: int)
        requires
            self.well_formed(),
            self.pairs(i, j),
            char_at(self.left, i, '('),
        ensures
            self.alike(
                block::<E>(self.left, i),
                block::<E>(self.right, j),
                |list: Seq<E::V>| all_steady::<E>(list),
            ),
    {
        lemma_sets_and_line_breaks();
        self.lemma_char(i, j, '(');
        self.lemma_run_in_line(i + 1, j + 1, BLANKS@);
        let line_break = skip_blanks(self.left, i + 1);
        let break_place = skip_blanks(self.right, j + 1);
        self.lemma_run_over_lines(line_break, break_place, WHITESPACES@);
        lemma_span_while(self.left, line_break, WHITESPACES@);
        lemma_span_while(self.right, break_place, WHITESPACES@);
        self.lemma_pairs(line_break, break_place);
        let first = skip_whitespace(self.left, line_break);
        if first < self.left.len() {
            self.lemma_entries::<E>(first, skip_whitespace(self.right, break_place));
        }
    }

    /// The texts hold a listing at paired positions alike.
    pub proof fn lemma_listing<E: LineEntry>(self, i: int, j: int)
        requires
            self.well_formed(),
            self.pairs(i, j),
        ensures
            self.alike(
                listing::<E>(self.left, i),
                listing::<E>(self.right, j),
                |list: Seq<E::V>| all_steady::<E>(list),
            ),
    {
        lemma_sets_and_line_breaks();
        self.lemma_run_in_line(i, j, BLANKS@);
        let start = skip_blanks(self.left, i);
        let place = skip_blanks(self.right, j);
        self.lemma_char(start, place, '(');
        if start != i {
            if char_at(self.left, start, '(') {
                self.lemma_block::<E>(start, place);
            } else {
                E::lemma_entry_alike(self, start, place);
                if let Ok((only, end)) = E::entry(self.left, start) {
                    self.lemma_run_over_lines(end, E::entry(self.right, place)->Ok_0.1, CRLF@);
                    if self.exact || all_steady::<E>(seq![only]) {
                        assert(self.exact || E::steady(seq![only][0]));
                    }
                }
            }
        }
    }

    /// The texts hold the value of a one-line directive alike, whatever
    /// the directive makes of it.
    pub proof fn lemma_line_directive(
        self,
        i: int,
        j: int,
        make: spec_fn(Seq<char>) -> DirectiveView,
    )
        requires
            self.well_formed(),
            self.pairs(i, j),
        ensures
            self.alike(
                map_value(line_value(self.left, i), make),
                map_value(line_value(self.right, j), make),
                |value: DirectiveView| value.steady(),
            ),
    {
        self.lemma_line_value(i, j);
    }

    /// The texts hold what follows the keyword `godebug` alike.
    pub proof fn lemma_godebug(self, i: int, j: int)
        requires
            self.well_formed(),
            self.pairs(i, j),
        ensures
            self.alike(
                godebug_body(self.left, i),
                godebug_body(self.right, j),
                |value: DirectiveView| value.steady(),
            ),
    {
        self.lemma_listing::<(String, String)>(i, j);
        if let Ok((list, end)) = listing::<(String, String)>(self.left, i) {
            let merged = merge(Seq::empty(), list);
            if all_steady::<(String, String)>(merged) {
                lemma_merge_keys(Seq::empty(), list);
                assert forall|k: int| 0 <= k < list.len() implies setting_steady(
                    #[trigger] list[k],
                ) by {
                    let at = choose|at: int|
                        0 <= at < merged.len() && (#[trigger] merged[at]).0 == list[k].0;
                    assert(setting_steady(merged[at]));
                }
            }
        }
    }

    /// The texts hold what follows the keywords `require` and `exclude`
    /// alike.
    pub proof fn lemma_require(self, i: int, j: int)
        requires
            self.well_formed(),
            self.pairs(i, j),
        ensures
            self.alike(
                require_body(self.left, i),
                require_body(self.right, j),
                |value: DirectiveView| value.steady(),
            ),
            self.alike(
                exclude_body(self.left, i),
                exclude_body(self.right, j),
                |value: DirectiveView| value.steady(),
            ),
    {
        self.lemma_listing::<ModuleDependency>(i, j);
    }

    /// The texts hold what follows the keyword `replace` alike.
    pub proof fn lemma_replace(self, i: int, j: int)
        requires
            self.well_formed(),
            self.pairs(i, j),
        ensures
            self.alike(
                replace_body(self.left, i),
                replace_body(self.right, j),
                |value: DirectiveView| value.steady(),
            ),
    {
        self.lemma_listing::<ModuleReplacement>(i, j);
    }

    /// The texts hold what follows the keyword `retract` alike.
    pub proof fn lemma_retract(self, i: int, j: int)
        requires
            self.well_formed(),
            self.pairs(i, j),
        ensures
            self.alike(
                retract_body(self.left, i),
                retract_body(self.right, j),
                |value: DirectiveView| value.steady(),
            ),
    {
        self.lemma_listing::<ModuleRetract>(i, j);
    }

    /// The texts hold a directive at paired positions alike.
    pub proof fn lemma_directive(self, i: int, j: int)
        requires
            self.well_formed(),
            self.pairs(i, j),
        ensures
            self.alike(
                directive(self.left, i),
                directive(self.right, j),
                |value: DirectiveView| value.steady(),
            ),
    {
        reveal(directive);
        reveal_strlit("//");
        lemma_sets_and_line_breaks();
        self.lemma_run_over_lines(i, j, CRLF@);
        let start = skip_line_breaks(self.left, i);
        let start_place = skip_line_breaks(self.right, j);
        self.lemma_prefix(start, start_place, "//"@);
        self.lemma_stretch_in_line(start, start_place, WHITESPACES@);
        let end = word_end(self.left, start);
        let place = word_end(self.right, start_place);
        let word = self.left.subrange(start, end);
        assert(self.right.subrange(start_place, place) == word);
        if has_prefix_at(self.left, start, "//"@) {
            self.lemma_comment_body(start, start_place);
        } else if end <= start {
        } else if word == "module"@ {
            self.lemma_line_directive(end, place, |value: Seq<char>| DirectiveView::Module(value));
        } else if word == "go"@ {
            self.lemma_line_directive(end, place, |value: Seq<char>| DirectiveView::Go(value));
        } else if word == "godebug"@ {
            self.lemma_godebug(end, place);
        } else if word == "tool"@ {
            self.lemma_line_directive(
                end,
                place,
                |value: Seq<char>| DirectiveView::Tool(seq![value]),
            );
        } else if word == "toolchain"@ {
            self.lemma_line_directive(
                end,
                place,
                |value: Seq<char>| DirectiveView::Toolchain(value),
            );
        } else if word == "require"@ {
            self.lemma_require(end, place);
        } else if word == "exclude"@ {
            self.lemma_require(end, place);
        } else if word == "replace"@ {
            self.lemma_replace(end, place);
        } else if word == "retract"@ {
            self.lemma_retract(end, place);
        }
    }

    /// The texts hold the same directives from paired positions on, or
    /// fail both, and for the same kind of reason.
    pub proof fn lemma_directives(self, i: int, j: int)
        requires
            self.well_formed(),
            self.pairs(i, j),
        ensures
            match directives(self.left, i) {
                Ok(list) => directives(self.right, j) matches Ok(other) && (self.exact || (
                forall|k: int| 0 <= k < list.len() ==> (#[trigger] list[k]).steady()) ==> other
                    == list),
                Err(failure) => directives(self.right, j) matches Err(other) && other.kind
                    == failure.kind,
            },
        decreases self.left.len() - i,
    {
        lemma_sets_and_line_breaks();
        self.lemma_pairs(i, j);
        self.lemma_run_over_lines(i, j, WHITESPACES@);
        let start = skip_whitespace(self.left, i);
        let place = skip_whitespace(self.right, j);
        lemma_span_while(self.left, i, WHITESPACES@);
        lemma_span_while(self.right, j, WHITESPACES@);
        if start < self.left.len() {
            self.lemma_directive(start, place);
            crate::grammar::lemma_directive_bounds(self.left, start);
            crate::grammar::lemma_directive_bounds(self.right, place);
            assert(place < self.right.len());
            match directive(self.left, start) {
                Ok((first, next)) => {
                    let (other, next_place) = directive(self.right, place)->Ok_0;
                    self.lemma_directives(next, next_place);
                    match directives(self.left, next) {
                        Ok(rest) => {
                            let list = seq![first] + rest;
                            let others = directives(self.right, next_place)->Ok_0;
                            assert(directives(self.left, i) == Ok::<Seq<DirectiveView>, Failure>(
                                list,
                            ));
                            assert(directives(self.right, j) == Ok::<Seq<DirectiveView>, Failure>(
                                seq![other] + others,
                            ));
                            if self.exact || (forall|k: int|
                                0 <= k < list.len() ==> (#[trigger] list[k]).steady()) {
                                assert(self.exact || list[0].steady());
                                assert forall|k: int| 0 <= k < rest.len() implies self.exact || (
                                #[trigger] rest[k]).steady() by {
                                    assert(rest[k] == list[k + 1]);
                                }
                                assert(other == first);
                                assert(others == rest);
                            }
                        },
                        Err(failure) => {
                            assert(directives(self.left, i) is Err);
                        },
                    }
                },
                Err(failure) => {
                    assert(directives(self.right, j) is Err);
                },
            }
        } else {
            assert(place >= self.right.len());
        }
    }
}

/// The text `s` with a carriage return put before each line feed.
pub open spec fn with_crlf(s: Seq<char>) -> Seq<char>
    decreases s.len(),
{
    if s.len() == 0 {
        s
    } else if s.last() == '\n' {
        with_crlf(s.drop_last()) + seq!['\r', '\n']
    } else {
        with_crlf(s.drop_last()).push(s.last())
    }
}

/// Where the character `i` of `s` stands in `with_crlf(s)`.
pub open spec fn crlf_place(s: Seq<char>, i: int) -> int {
    with_crlf(s.take(i)).len() as int
}

/// The text with carriage returns starts with what each of its beginnings
/// becomes.
proof fn lemma_with_crlf_prefix(s: Seq<char>, i: int)
    requires
        0 <= i <= s.len(),
    ensures
        crlf_place(s, i) <= with_crlf(s).len(),
        with_crlf(s).subrange(0, crlf_place(s, i)) == with_crlf(s.take(i)),
    decreases s.len(),
{
    if i == s.len() {
        assert(s.take(i) =~= s);
        assert(with_crlf(s).subrange(0, with_crlf(s).len() as int) =~= with_crlf(s));
    } else {
        lemma_with_crlf_prefix(s.drop_last(), i);
        assert(s.drop_last().take(i) =~= s.take(i));
        let front = with_crlf(s.drop_last());
        assert(with_crlf(s).subrange(0, crlf_place(s, i)) =~= front.subrange(
            0,
            crlf_place(s, i),
        ));
    }
}

/// The text with carriage returns is aligned with the text.
proof fn lemma_with_crlf_aligned(s: Seq<char>)
    ensures
        (Alignment {
            left: s,
            right: with_crlf(s),
            place: |i: int| crlf_place(s, i),
            exact: false,
        }).well_formed(),
{
    let a = Alignment {
        left: s,
        right: with_crlf(s),
        place: |i: int| crlf_place(s, i),
        exact: false,
    };
    assert(s.take(0) =~= Seq::<char>::empty());
    assert(s.take(s.len() as int) =~= s);
    assert forall|i: int| 0 <= i < s.len() implies #[trigger] a.step(i) by {
        lemma_with_crlf_prefix(s, i);
        lemma_with_crlf_prefix(s, i + 1);
        let here = crlf_place(s, i);
        let next = crlf_place(s, i + 1);
        assert(s.take(i + 1).drop_last() =~= s.take(i));
        assert(s.take(i + 1).last() == s[i]);
        let front = with_crlf(s.take(i));
        let longer = with_crlf(s.take(i + 1));
        assert(forall|k: int| 0 <= k < longer.len() ==> longer[k] == with_crlf(s).subrange(
            0,
            next,
        )[k]);
        if s[i] == '\n' {
            assert(longer == front + seq!['\r', '\n']);
            assert(longer[here] == '\r' && longer[here + 1] == '\n');
            assert(a.right[here] == '\r' && a.right[here + 1] == '\n');
        } else {
            assert(longer == front.push(s[i]));
            assert(longer[here] == s[i]);
            assert(a.right[here] == s[i]);
        }
    }
}

/// The text with more line terminators at its end is aligned with the
/// text.
proof fn lemma_longer_aligned(s: Seq<char>, tail: Seq<char>)
    requires
        forall|k: int| 0 <= k < tail.len() ==> is_line_break(#[trigger] tail[k]),
    ensures
        (Alignment { left: s, right: s + tail, place: |i: int| i, exact: true }).well_formed(),
{
    let a = Alignment { left: s, right: s + tail, place: |i: int| i, exact: true };
    assert forall|k: int| s.len() <= k < a.right.len() implies is_line_break(
        #[trigger] a.right[k],
    ) by {
        assert(a.right[k] == tail[k - s.len()]);
    }
    assert forall|i: int| 0 <= i < s.len() implies #[trigger] a.step(i) by {}
}

impl GoModView {
    /// Whether no key of `godebug` and no bound of a retracted range holds
    /// a line feed.
    pub open spec fn steady(self) -> bool {
        &&& forall|k: int|
            0 <= k < self.godebug.len() ==> no_line_feed((#[trigger] self.godebug[k]).0)
        &&& forall|k: int|
            0 <= k < self.retract.len() ==> retract_steady(#[trigger] self.retract[k])
    }
}

/// Where the record of some directives is steady, each of the directives
/// is.
proof fn lemma_collect_steady(list: Seq<DirectiveView>)
    requires
        GoModView::collect(list).steady(),
    ensures
        forall|k: int| 0 <= k < list.len() ==> (#[trigger] list[k]).steady(),
    decreases list.len(),
{
    if list.len() > 0 {
        let front = GoModView::collect(list.drop_last());
        let whole = GoModView::collect(list);
        assert(whole == front.apply(list.last()));
        match list.last() {
            DirectiveView::GoDebug(settings) => {
                lemma_merge_keys(front.godebug, settings);
                assert(whole.retract == front.retract);
                assert forall|k: int| 0 <= k < front.godebug.len() implies no_line_feed(
                    (#[trigger] front.godebug[k]).0,
                ) by {
                    assert(whole.godebug[k].0 == front.godebug[k].0);
                }
                assert forall|k: int| 0 <= k < settings.len() implies setting_steady(
                    #[trigger] settings[k],
                ) by {
                    let at = choose|at: int|
                        0 <= at < whole.godebug.len() && (#[trigger] whole.godebug[at]).0
                            == settings[k].0;
                    assert(no_line_feed(whole.godebug[at].0));
                }
            },
            DirectiveView::Retract(more) => {
                assert(whole.godebug == front.godebug);
                assert forall|k: int| 0 <= k < front.retract.len() implies retract_steady(
                    #[trigger] front.retract[k],
                ) by {
                    assert(whole.retract[k] == front.retract[k]);
                }
                assert forall|k: int| 0 <= k < more.len() implies retract_steady(
                    #[trigger] more[k],
                ) by {
                    assert(whole.retract[front.retract.len() + k] == more[k]);
                }
            },
            DirectiveView::Comment(_) => {
                assert(whole.godebug == front.godebug && whole.retract == front.retract);
            },
            DirectiveView::Module(_) => {
                assert(whole.godebug == front.godebug && whole.retract == front.retract);
            },
            DirectiveView::Go(_) => {
                assert(whole.godebug == front.godebug && whole.retract == front.retract);
            },
            DirectiveView::Tool(_) => {
                assert(whole.godebug == front.godebug && whole.retract == front.retract);
            },
            DirectiveView::Toolchain(_) => {
                assert(whole.godebug == front.godebug && whole.retract == front.retract);
            },
            DirectiveView::Require(_) => {
                assert(whole.godebug == front.godebug && whole.retract == front.retract);
            },
            DirectiveView::Exclude(_) => {
                assert(whole.godebug == front.godebug && whole.retract == front.retract);
            },
            DirectiveView::Replace(_) => {
                assert(whole.godebug == front.godebug && whole.retract == front.retract);
            },
        }
        assert(front.steady());
        assert(list.last().steady());
        lemma_collect_steady(list.drop_last());
        assert forall|k: int| 0 <= k < list.len() implies (#[trigger] list[k]).steady() by {
            if k < list.len() - 1 {
                assert(list.drop_last()[k] == list[k]);
            }
        }
    }
}

/// A manifest needs no line terminator at its end: with line terminators
/// added at the end, or taken from it, a text parses to the same record,
/// or fails as before, for the same kind of reason.
pub proof fn theorem_trailing_line_breaks(s: Seq<char>, tail: Seq<char>)
    requires
        forall|k: int| 0 <= k < tail.len() ==> is_line_break(#[trigger] tail[k]),
    ensures
        match record(s) {
            Ok(parsed) => record(s + tail) == Ok::<GoModView, Failure>(parsed),
            Err(failure) => record(s + tail) matches Err(other) && other.kind == failure.kind,
        },
        manifest(s) matches Ok(list) ==> manifest(s + tail) == manifest(s),
{
    let a = Alignment { left: s, right: s + tail, place: |i: int| i, exact: true };
    lemma_longer_aligned(s, tail);
    a.lemma_directives(0, 0);
}

/// Line endings of the two kinds give the same record: where a text
/// parses to a record without a line feed in a key or in the bound of a
/// range, the text with `\r\n` for every `\n` parses to the same record;
/// where the text fails, so does the other, for the same kind of reason.
pub proof fn theorem_crlf(s: Seq<char>)
    ensures
        match record(s) {
            Ok(parsed) => record(with_crlf(s)) is Ok && (parsed.steady() ==> record(with_crlf(s))
                == Ok::<GoModView, Failure>(parsed)),
            Err(failure) => record(with_crlf(s)) matches Err(other) && other.kind == failure.kind,
        },
{
    let a = Alignment {
        left: s,
        right: with_crlf(s),
        place: |i: int| crlf_place(s, i),
        exact: false,
    };
    lemma_with_crlf_aligned(s);
    assert(s.take(0) =~= Seq::<char>::empty());
    a.lemma_directives(0, 0);
    if let Ok(list) = manifest(s) {
        if GoModView::collect(list).steady() {
            lemma_collect_steady(list);
        }
    }
}

} // verus!
