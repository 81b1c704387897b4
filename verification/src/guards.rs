//! Protection of terms that must never be rewritten: an exact-match set
//! loaded from text (with lowercase and normalized mirrors) and an
//! ordered list of compiled regular expressions.

use vstd::prelude::*;
use regex::RegexBuilder;
use crate::store::CharsSet;
use crate::store::chars_set_of;
use crate::text::chars_of;
use crate::text::trim_chars;
use crate::text::trim_spec;
use crate::text::lines_of;
use crate::text::lines_spec;
use crate::unicode::lower_of;
use crate::unicode::lowercase_chars;
use crate::unicode::normal_of;
use crate::unicode::normalize_chars;

verus! {

#[verifier::external_type_specification]
#[verifier::external_body]
pub struct ExRegex(regex::Regex);

/// Whether the regular expression built from `source` with the given
/// flags (case-insensitive, multi-line, ignore-whitespace) matches
/// somewhere in `text`.
pub uninterp spec fn pattern_matches(
    source: Seq<char>,
    ci: bool,
    ml: bool,
    iw: bool,
    text: Seq<char>,
) -> bool;

/// Whether `source` compiles as a regular expression under the given
/// flags.
pub uninterp spec fn pattern_compiles(source: Seq<char>, ci: bool, ml: bool, iw: bool) -> bool;

/// A compiled protection pattern, together with the source and flags it
/// was built from. The fields are private, so a value can only come from
/// `compile_pattern`: the compiled expression always corresponds to the
/// recorded source and flags, which the spec functions below expose.
pub struct CompiledPattern {
    regex: regex::Regex,
    source: String,
    case_insensitive: bool,
    multi_line: bool,
    ignore_whitespace: bool,
}

impl CompiledPattern {
    /// The source the pattern was compiled from.
    pub closed spec fn source_view(self) -> Seq<char> {
        self.source@
    }

    /// The case-insensitive flag it was compiled with.
    pub closed spec fn ci_flag(self) -> bool {
        self.case_insensitive
    }

    /// The multi-line flag it was compiled with.
    pub closed spec fn ml_flag(self) -> bool {
        self.multi_line
    }

    /// The ignore-whitespace flag it was compiled with.
    pub closed spec fn iw_flag(self) -> bool {
        self.ignore_whitespace
    }
}

/// Whether `p` matches somewhere in `w`.
pub open spec fn pattern_matches_spec(p: CompiledPattern, w: Seq<char>) -> bool {
    pattern_matches(p.source_view(), p.ci_flag(), p.ml_flag(), p.iw_flag(), w)
}

/// Relies on regex's `RegexBuilder::build`: compilation succeeds or fails
/// as a function of the source and flags alone, and the returned value is
/// the compiled form of exactly that source under those flags.
#[verifier::external_body]
fn compile_pattern(source: &str, ci: bool, ml: bool, iw: bool) -> (r: Result<
    CompiledPattern,
    String,
>)
    ensures
        r is Ok <==> pattern_compiles(source@, ci, ml, iw),
        r matches Ok(p) ==> p.source_view() == source@ && p.ci_flag() == ci && p.ml_flag() == ml
            && p.iw_flag() == iw,
{
    match RegexBuilder::new(source).case_insensitive(ci).multi_line(ml).ignore_whitespace(
        iw,
    ).build() {
        Ok(regex) => Ok(
            CompiledPattern {
                regex,
                source: source.to_string(),
                case_insensitive: ci,
                multi_line: ml,
                ignore_whitespace: iw,
            },
        ),
        Err(e) => Err(format!("Invalid regex pattern: {}", e)),
    }
}

/// Relies on regex's `Regex::is_match`: whether the pattern matches is a
/// function of the compiled pattern's source, its flags, and the text.
#[verifier::external_body]
fn pattern_is_match(p: &CompiledPattern, text: &str) -> (r: bool)
    ensures
        r == pattern_matches(p.source_view(), p.ci_flag(), p.ml_flag(), p.iw_flag(), text@),
{
    p.regex.is_match(text)
}

/// A protection pattern as configured: its source and compile flags.
#[derive(Debug, Clone, PartialEq, Eq)]
pub struct PatternEntry {
    pub source: String,
    pub case_insensitive: bool,
    pub multi_line: bool,
    pub ignore_whitespace: bool,
}

/// The protection predicate's data: exact terms and ordered patterns.
pub struct Guards {
    pub protected_set: CharsSet,
    pub protected_patterns: Vec<CompiledPattern>,
}

/// A word is protected when it is in the exact set, its lowercase form
/// is, or some pattern matches it.
pub open spec fn protected_spec(g: Guards, w: Seq<char>) -> bool {
    ||| chars_set_of(g.protected_set).contains(w)
    ||| chars_set_of(g.protected_set).contains(lower_of(w))
    ||| exists|i: int|
        0 <= i < g.protected_patterns@.len() && pattern_matches_spec(
            #[trigger] g.protected_patterns@[i],
            w,
        )
}

/// The three stored forms of one protected-terms line, or nothing for a
/// line that is blank or a comment after trimming.
pub open spec fn protected_line_forms(line: Seq<char>) -> Set<Seq<char>> {
    let t = trim_spec(line);
    if t.len() > 0 && t[0] != '#' {
        Set::empty().insert(t).insert(lower_of(t)).insert(normal_of(t))
    } else {
        Set::empty()
    }
}

/// The stored forms of every line, in order.
pub open spec fn forms_of_lines(lines: Seq<Seq<char>>) -> Set<Seq<char>>
    decreases lines.len(),
{
    if lines.len() == 0 {
        Set::empty()
    } else {
        forms_of_lines(lines.drop_last()).union(protected_line_forms(lines.last()))
    }
}

/// Everything a protected-terms text contributes to the exact set.
pub open spec fn protected_additions(content: Seq<char>) -> Set<Seq<char>> {
    forms_of_lines(lines_spec(content))
}

/// `post` is `pre` with one pattern appended, compiled from `source`
/// under the given flags.
pub open spec fn added_pattern(
    pre: Guards,
    post: Guards,
    source: Seq<char>,
    ci: bool,
    ml: bool,
    iw: bool,
) -> bool {
    &&& post.protected_patterns@.len() == pre.protected_patterns@.len() + 1
    &&& forall|j: int|
        0 <= j < pre.protected_patterns@.len() ==> #[trigger] post.protected_patterns@[j]
            == pre.protected_patterns@[j]
    &&& post.protected_patterns@.last().source_view() == source
    &&& post.protected_patterns@.last().ci_flag() == ci
    &&& post.protected_patterns@.last().ml_flag() == ml
    &&& post.protected_patterns@.last().iw_flag() == iw
    &&& post.protected_set == pre.protected_set
}

impl Guards {
    pub fn new() -> (r: Self)
        ensures
            chars_set_of(r.protected_set) == crate::store::empty_chars_set(),
            r.protected_patterns@.len() == 0,
    {
        Self { protected_set: CharsSet::new(), protected_patterns: Vec::new() }
    }

    /// Load protected terms: each non-blank, non-comment line contributes
    /// its trimmed form, the lowercase of that, and the normalization of
    /// that.
    pub fn load_protected(&mut self, content: &str)
        ensures
            chars_set_of(final(self).protected_set) == chars_set_of(
                old(self).protected_set,
            ).union(protected_additions(content@)),
            final(self).protected_patterns == old(self).protected_patterns,
    {
        let cs = chars_of(content);
        let lines = lines_of(&cs);
        let ghost lspec = lines_spec(content@);
        let ghost set0 = chars_set_of(self.protected_set);
        let mut i: usize = 0;
        proof {
            assert(lspec.take(0) =~= Seq::<Seq<char>>::empty());
            assert(chars_set_of(self.protected_set) =~= set0.union(forms_of_lines(lspec.take(0))));
        }
        while i < lines.len()
            invariant
                i <= lines@.len(),
                lines@.len() == lspec.len(),
                forall|j: int| 0 <= j < lines@.len() ==> #[trigger] lines@[j]@ == lspec[j],
                chars_set_of(self.protected_set) == set0.union(forms_of_lines(lspec.take(i as int))),
                self.protected_patterns == old(self).protected_patterns,
            decreases lines@.len() - i,
        {
            let trimmed = trim_chars(&lines[i]);
            let ghost pre = chars_set_of(self.protected_set);
            if trimmed.len() > 0 && trimmed[0] != '#' {
                self.protected_set.insert(&trimmed);
                let lower = lowercase_chars(&trimmed);
                self.protected_set.insert(&lower);
                let normalized = normalize_chars(&trimmed);
                self.protected_set.insert(&normalized);
                proof {
                    assert(chars_set_of(self.protected_set) =~= pre.union(
                        protected_line_forms(lspec[i as int]),
                    ));
                }
            } else {
                proof {
                    assert(protected_line_forms(lspec[i as int]) =~= Set::<Seq<char>>::empty());
                    assert(chars_set_of(self.protected_set) =~= pre.union(
                        protected_line_forms(lspec[i as int]),
                    ));
                }
            }
            proof {
                assert(lspec.take(i + 1).drop_last() =~= lspec.take(i as int));
                assert(lspec.take(i + 1).last() == lspec[i as int]);
                assert(forms_of_lines(lspec.take(i + 1)) =~= forms_of_lines(
                    lspec.take(i as int),
                ).union(protected_line_forms(lspec[i as int])));
                assert(chars_set_of(self.protected_set) =~= set0.union(
                    forms_of_lines(lspec.take(i + 1)),
                ));
            }
            i = i + 1;
        }
        proof {
            assert(lspec.take(lspec.len() as int) =~= lspec);
        }
    }

    /// Compile `pattern` with the given flags and append it; an invalid
    /// pattern leaves the guards unchanged and reports the diagnostic.
    pub fn add_pattern_with_flags(
        &mut self,
        pattern: &str,
        case_insensitive: bool,
        multiline: bool,
        extended: bool,
    ) -> (r: Result<(), String>)
        ensures
            r is Ok <==> pattern_compiles(pattern@, case_insensitive, multiline, extended),
            r is Ok ==> added_pattern(*old(self), *final(self), pattern@, case_insensitive, multiline, extended),
            r is Err ==> *final(self) == *old(self),
    {
        match compile_pattern(pattern, case_insensitive, multiline, extended) {
            Ok(regex) => {
                self.protected_patterns.push(regex);
                Ok(())
            },
            Err(e) => Err(e),
        }
    }

    /// Whether `word` is protected: in the exact set, in it after
    /// lowercasing, or matched by some pattern.
    pub fn is_protected(&self, word: &str) -> (r: bool)
        ensures
            r == protected_spec(*self, word@),
    {
        let wc = chars_of(word);
        if self.protected_set.contains(&wc) {
            return true;
        }
        let lower = lowercase_chars(&wc);
        if self.protected_set.contains(&lower) {
            return true;
        }
        let mut i: usize = 0;
        while i < self.protected_patterns.len()
            invariant
                i <= self.protected_patterns@.len(),
                forall|j: int|
                    0 <= j < i ==> !pattern_matches_spec(
                        #[trigger] self.protected_patterns@[j],
                        word@,
                    ),
            decreases self.protected_patterns@.len() - i,
        {
            if pattern_is_match(&self.protected_patterns[i], word) {
                return true;
            }
            i = i + 1;
        }
        false
    }

    /// Whether either the raw word or its normalized form is protected.
    pub fn is_protected_normalized(&self, word: &str, normalized: &str) -> (r: bool)
        ensures
            r == (protected_spec(*self, word@) || protected_spec(*self, normalized@)),
    {
        self.is_protected(word) || self.is_protected(normalized)
    }
}

} // verus!
