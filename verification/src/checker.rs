//! The engine façade: an unloaded or loaded checker, dictionary loading,
//! and the correction policy combining suggestions, guards and the
//! frequency gate.

use vstd::prelude::*;
use vstd::string::*;
use crate::guards::Guards;
use crate::guards::PatternEntry;
use crate::guards::pattern_compiles;
use crate::guards::protected_spec;
use crate::guards::protected_additions;
use crate::store::word_map_of;
use crate::store::chars_set_of;
use crate::symspell::SymSpell;
use crate::symspell::Suggestion;
use crate::symspell::added_word;
use crate::symspell::suggestions_post;
use crate::symspell::sugg_valid;
use crate::symspell::sugg_le;
use crate::symspell::rank_le;
use crate::symspell::lex_le;
use crate::symspell::lemma_distance_one_probed;
use crate::symspell::lemma_rank_le_trans;
use crate::symspell::lemma_lex_le_refl;
use crate::symspell::lemma_lex_le_antisym;
use crate::edit::lemma_lev_zero_iff_eq;
use crate::text::chars_of;
use crate::text::split_ws;
use crate::text::split_ws_spec;
use crate::text::lines_spec;
use crate::text::lines_of;
use crate::text::parse_u64_spec;
use crate::text::parse_u64_chars;
use crate::unicode::normal_of;
use crate::unicode::string_of_chars;
use crate::edit::lev;

verus! {

/// The error kinds the engine reports.
#[derive(Debug, Clone, PartialEq, Eq)]
pub enum SpellError {
    /// A query operation before a successful load.
    NotLoaded,
    /// A configuration value outside its allowed range.
    InvalidArg(String),
    /// A protection pattern that does not compile, with its source and
    /// the compiler's diagnostic.
    InvalidPattern { source: String, diagnostic: String },
}

/// What `stats` reports.
#[derive(Debug, Clone, PartialEq, Eq)]
pub struct Stats {
    pub loaded: bool,
    pub dictionary_size: Option<usize>,
    pub edit_distance: Option<usize>,
    pub loaded_at: Option<u64>,
}

/// Everything a load provides: the dictionary text, the optional
/// protected-terms text, the protection patterns, the maximum edit
/// distance, the frequency threshold in thousandths, and the load time.
pub struct LoadConfig {
    pub dictionary_text: String,
    pub protected_text: Option<String>,
    pub protected_patterns: Vec<PatternEntry>,
    pub edit_distance: usize,
    pub frequency_threshold_milli: u64,
    pub loaded_at: Option<u64>,
}

/// The loaded snapshot: index, guards and scalar configuration.
pub struct LoadedState {
    pub symspell: SymSpell,
    pub guards: Guards,
    pub frequency_threshold_milli: u64,
    pub loaded_at: Option<u64>,
    pub dictionary_size: usize,
    pub edit_distance: usize,
}

impl LoadedState {
    pub open spec fn wf(self) -> bool {
        &&& self.symspell.wf()
        &&& self.symspell.max_edit_distance == self.edit_distance
        &&& 1 <= self.edit_distance <= 2
    }
}

/// The engine: unloaded until a successful load installs a snapshot.
pub struct Checker {
    pub state: Option<LoadedState>,
}

/// The parsed row of one dictionary line: exactly two
/// whitespace-separated fields, the second an unsigned count.
pub open spec fn row_of_line(line: Seq<char>) -> Option<(Seq<char>, u64)> {
    let fields = split_ws_spec(line);
    if fields.len() == 2 {
        match parse_u64_spec(fields[1]) {
            Some(f) => Some((fields[0], f)),
            None => None,
        }
    } else {
        None
    }
}

pub open spec fn rows_of_lines(lines: Seq<Seq<char>>) -> Seq<(Seq<char>, u64)>
    decreases lines.len(),
{
    if lines.len() == 0 {
        Seq::empty()
    } else {
        rows_of_lines(lines.drop_last()) + (match row_of_line(lines.last()) {
            Some(row) => seq![row],
            None => Seq::empty(),
        })
    }
}

/// The `(term, frequency)` rows of a dictionary text; malformed lines
/// are skipped.
pub open spec fn parse_dict_spec(content: Seq<char>) -> Seq<(Seq<char>, u64)> {
    rows_of_lines(lines_spec(content))
}

/// The word map built from rows in order: empty keys skipped, and on a
/// repeated key the higher frequency kept, the earlier on ties.
pub open spec fn built_words(rows: Seq<(Seq<char>, u64)>) -> Map<Seq<char>, (Seq<char>, u64)>
    decreases rows.len(),
{
    if rows.len() == 0 {
        crate::store::empty_word_map()
    } else {
        let m = built_words(rows.drop_last());
        let c = rows.last().0;
        let f = rows.last().1;
        let k = normal_of(c);
        if k.len() == 0 {
            m
        } else {
            added_word(m, k, c, f)
        }
    }
}

pub open spec fn all_patterns_compile(ps: Seq<PatternEntry>) -> bool {
    forall|j: int|
        0 <= j < ps.len() ==> pattern_compiles(
            (#[trigger] ps[j]).source@,
            ps[j].case_insensitive,
            ps[j].multi_line,
            ps[j].ignore_whitespace,
        )
}

/// `src` is the source of the first pattern in `ps` that does not
/// compile.
pub open spec fn first_pattern_failure(ps: Seq<PatternEntry>, src: Seq<char>) -> bool {
    exists|j: int|
        {
            &&& 0 <= j < ps.len()
            &&& !pattern_compiles(
                (#[trigger] ps[j]).source@,
                ps[j].case_insensitive,
                ps[j].multi_line,
                ps[j].ignore_whitespace,
            )
            &&& src == ps[j].source@
            &&& forall|j2: int|
                0 <= j2 < j ==> pattern_compiles(
                    (#[trigger] ps[j2]).source@,
                    ps[j2].case_insensitive,
                    ps[j2].multi_line,
                    ps[j2].ignore_whitespace,
                )
        }
}

/// The guards hold exactly the patterns of `ps`, in order.
pub open spec fn patterns_match(g: Guards, ps: Seq<PatternEntry>) -> bool {
    &&& g.protected_patterns@.len() == ps.len()
    &&& forall|j: int|
        0 <= j < ps.len() ==> (#[trigger] g.protected_patterns@[j]).source_view() == ps[j].source@
            && g.protected_patterns@[j].ci_flag() == ps[j].case_insensitive
            && g.protected_patterns@[j].ml_flag() == ps[j].multi_line
            && g.protected_patterns@[j].iw_flag() == ps[j].ignore_whitespace
}

/// The word's normalization is a dictionary key.
pub open spec fn known_spec(st: LoadedState, w: Seq<char>) -> bool {
    word_map_of(st.symspell.words).contains_key(normal_of(w))
}

/// The frequency gate: a candidate's count, scaled by 1000, must reach
/// the threshold (in thousandths), scaled by the original word's count
/// when that word is in the dictionary.
pub open spec fn gate_passes(st: LoadedState, q: Seq<char>, freq: u64) -> bool {
    if word_map_of(st.symspell.words).contains_key(q) {
        (freq as nat) * 1000 >= (st.frequency_threshold_milli as nat) * (word_map_of(
            st.symspell.words,
        )[q].1 as nat)
    } else {
        (freq as nat) * 1000 >= st.frequency_threshold_milli as nat
    }
}

/// A dictionary key exactly one edit from the normalized query.
pub open spec fn near_candidate(st: LoadedState, q: Seq<char>, k: Seq<char>) -> bool {
    word_map_of(st.symspell.words).contains_key(k) && lev(q, k) == 1
}

/// `k` ranks no worse than `k2`: the higher stored count first, then the
/// lexicographically smaller canonical form.
pub open spec fn ranks_no_worse(st: LoadedState, k: Seq<char>, k2: Seq<char>) -> bool {
    ||| word_map_of(st.symspell.words)[k].1 > word_map_of(st.symspell.words)[k2].1
    ||| (word_map_of(st.symspell.words)[k].1 == word_map_of(st.symspell.words)[k2].1 && lex_le(
        word_map_of(st.symspell.words)[k].0,
        word_map_of(st.symspell.words)[k2].0,
    ))
}

/// The best-ranked of the keys exactly one edit from the query.
pub open spec fn best_near_candidate(st: LoadedState, q: Seq<char>, k: Seq<char>) -> bool {
    &&& near_candidate(st, q, k)
    &&& forall|k2: Seq<char>| #[trigger] near_candidate(st, q, k2) ==> ranks_no_worse(st, k, k2)
}

/// What correction returns for `w`: the word itself when it is guarded,
/// already known, or normalizes to nothing; otherwise, when some key one
/// edit away passes the frequency gate, the canonical form of the
/// best-ranked such key; and in every case either the word or a
/// gate-passing entry within distance one.
pub open spec fn correction_post(st: LoadedState, w: Seq<char>, use_guard: bool, r: Seq<char>) -> bool {
    let q = normal_of(w);
    &&& (use_guard && (protected_spec(st.guards, w) || protected_spec(st.guards, q)) ==> r == w)
    &&& (known_spec(st, w) ==> r == w)
    &&& (q.len() == 0 ==> r == w)
    &&& (r == w || exists|k: Seq<char>|
        {
            &&& #[trigger] word_map_of(st.symspell.words).contains_key(k)
            &&& r == word_map_of(st.symspell.words)[k].0
            &&& lev(q, k) <= 1
            &&& gate_passes(st, q, word_map_of(st.symspell.words)[k].1)
        })
    &&& (!(use_guard && (protected_spec(st.guards, w) || protected_spec(st.guards, q)))
        && !known_spec(st, w) && q.len() > 0 && q.len() + 2 < usize::MAX && (exists|k: Seq<char>|
        #[trigger] near_candidate(st, q, k) && gate_passes(
            st,
            q,
            word_map_of(st.symspell.words)[k].1,
        )) ==> exists|k: Seq<char>|
        {
            &&& #[trigger] best_near_candidate(st, q, k)
            &&& gate_passes(st, q, word_map_of(st.symspell.words)[k].1)
            &&& r == word_map_of(st.symspell.words)[k].0
        })
}

proof fn lemma_gate_monotone(st: LoadedState, q: Seq<char>, f1: u64, f2: u64)
    requires
        f1 <= f2,
        gate_passes(st, q, f1),
    ensures
        gate_passes(st, q, f2),
{
    assert((f2 as nat) * 1000 >= (f1 as nat) * 1000);
}

/// The parsed rows of a dictionary text, in order.
pub fn parse_dictionary(content: &str) -> (r: Vec<(String, u64)>)
    ensures
        r@.len() == parse_dict_spec(content@).len(),
        forall|j: int|
            0 <= j < r@.len() ==> (#[trigger] r@[j]).0@ == parse_dict_spec(content@)[j].0
                && r@[j].1 == parse_dict_spec(content@)[j].1,
{
    let cs = chars_of(content);
    let lines = lines_of(&cs);
    let ghost lspec = lines_spec(content@);
    let mut r: Vec<(String, u64)> = Vec::new();
    let mut i: usize = 0;
    proof {
        assert(lspec.take(0) =~= Seq::<Seq<char>>::empty());
    }
    while i < lines.len()
        invariant
            i <= lines@.len(),
            lines@.len() == lspec.len(),
            forall|j: int| 0 <= j < lines@.len() ==> #[trigger] lines@[j]@ == lspec[j],
            r@.len() == rows_of_lines(lspec.take(i as int)).len(),
            forall|j: int|
                0 <= j < r@.len() ==> (#[trigger] r@[j]).0@ == rows_of_lines(
                    lspec.take(i as int),
                )[j].0 && r@[j].1 == rows_of_lines(lspec.take(i as int))[j].1,
        decreases lines@.len() - i,
    {
        let ghost rows0 = rows_of_lines(lspec.take(i as int));
        let fields = split_ws(&lines[i]);
        proof {
            assert(lines@[i as int]@ == lspec[i as int]);
            let sf = split_ws_spec(lspec[i as int]);
            assert(fields@.len() == sf.len());
            if fields@.len() == 2 {
                assert(fields@[1]@ == sf[1]);
                assert(fields@[0]@ == sf[0]);
            }
        }
        if fields.len() == 2 {
            match parse_u64_chars(&fields[1]) {
                Some(freq) => {
                    let term = string_of_chars(&fields[0]);
                    r.push((term, freq));
                },
                None => {},
            }
        }
        proof {
            assert(lspec.take(i + 1).drop_last() =~= lspec.take(i as int));
            assert(lspec.take(i + 1).last() == lspec[i as int]);
            assert(rows_of_lines(lspec.take(i + 1)) == rows0 + (match row_of_line(
                lspec[i as int],
            ) {
                Some(row) => seq![row],
                None => Seq::<(Seq<char>, u64)>::empty(),
            }));
        }
        i = i + 1;
    }
    proof {
        assert(lspec.take(lspec.len() as int) =~= lspec);
    }
    r
}

impl Checker {
    pub open spec fn wf(self) -> bool {
        match self.state {
            Some(st) => st.wf(),
            None => true,
        }
    }

    /// A fresh, unloaded checker.
    pub fn new() -> (r: Self)
        ensures
            r.wf(),
            r.state is None,
    {
        Self { state: None }
    }

    /// Build an index and guards from `config` and install them. A
    /// rejected configuration or pattern leaves the previous state
    /// intact.
    pub fn load_full(&mut self, config: &LoadConfig) -> (r: Result<(), SpellError>)
        requires
            old(self).wf(),
        ensures
            final(self).wf(),
            r is Err ==> *final(self) == *old(self),
            r is Ok <==> ((config.edit_distance == 1 || config.edit_distance == 2)
                && all_patterns_compile(config.protected_patterns@)),
            !(config.edit_distance == 1 || config.edit_distance == 2) ==> (r matches Err(
                SpellError::InvalidArg(_),
            )),
            (config.edit_distance == 1 || config.edit_distance == 2) && r is Err
                ==> invalid_pattern_err(r, config.protected_patterns@),
            r is Ok ==> loaded_ok(*final(self), *config),
    {
        if config.edit_distance != 1 && config.edit_distance != 2 {
            return Err(SpellError::InvalidArg(String::from_str("edit_distance must be 1 or 2")));
        }
        let rows = parse_dictionary(config.dictionary_text.as_str());
        let ghost rows_spec = parse_dict_spec(config.dictionary_text@);
        let dictionary_size = rows.len();
        let mut symspell = SymSpell::new(config.edit_distance);
        proof {
            assert(rows_spec.take(0) =~= Seq::<(Seq<char>, u64)>::empty());
        }
        let mut ri: usize = 0;
        while ri < rows.len()
            invariant
                ri <= rows@.len(),
                rows@.len() == rows_spec.len(),
                forall|j: int|
                    0 <= j < rows@.len() ==> (#[trigger] rows@[j]).0@ == rows_spec[j].0
                        && rows@[j].1 == rows_spec[j].1,
                symspell.wf(),
                symspell.max_edit_distance == config.edit_distance,
                word_map_of(symspell.words) == built_words(rows_spec.take(ri as int)),
            decreases rows@.len() - ri,
        {
            let ghost m0 = word_map_of(symspell.words);
            let normalized = SymSpell::normalize_word(rows[ri].0.as_str());
            if !normalized.as_str().is_empty() {
                let freq = rows[ri].1;
                symspell.add_word(normalized.as_str(), rows[ri].0.as_str(), freq);
            }
            proof {
                assert(rows_spec.take(ri + 1).drop_last() =~= rows_spec.take(ri as int));
                assert(rows_spec.take(ri + 1).last() == rows_spec[ri as int]);
                assert(word_map_of(symspell.words) == built_words(rows_spec.take(ri + 1)));
            }
            ri = ri + 1;
        }
        proof {
            assert(rows_spec.take(rows_spec.len() as int) =~= rows_spec);
        }
        let mut guards = Guards::new();
        match &config.protected_text {
            Some(t) => {
                guards.load_protected(t.as_str());
                proof {
                    assert(chars_set_of(guards.protected_set) =~= protected_additions(t@));
                }
            },
            None => {},
        }
        let mut pi: usize = 0;
        while pi < config.protected_patterns.len()
            invariant
                pi <= config.protected_patterns@.len(),
                *self == *old(self),
                old(self).wf(),
                config.edit_distance == 1 || config.edit_distance == 2,
                guards.protected_patterns@.len() == pi,
                forall|j: int|
                    0 <= j < pi ==> (#[trigger] guards.protected_patterns@[j]).source_view()
                        == config.protected_patterns@[j].source@
                        && guards.protected_patterns@[j].ci_flag()
                        == config.protected_patterns@[j].case_insensitive
                        && guards.protected_patterns@[j].ml_flag()
                        == config.protected_patterns@[j].multi_line
                        && guards.protected_patterns@[j].iw_flag()
                        == config.protected_patterns@[j].ignore_whitespace,
                forall|j: int|
                    0 <= j < pi ==> pattern_compiles(
                        (#[trigger] config.protected_patterns@[j]).source@,
                        config.protected_patterns@[j].case_insensitive,
                        config.protected_patterns@[j].multi_line,
                        config.protected_patterns@[j].ignore_whitespace,
                    ),
                chars_set_of(guards.protected_set) == (match config.protected_text {
                    Some(t) => protected_additions(t@),
                    None => crate::store::empty_chars_set(),
                }),
            decreases config.protected_patterns@.len() - pi,
        {
            let entry = &config.protected_patterns[pi];
            match guards.add_pattern_with_flags(
                entry.source.as_str(),
                entry.case_insensitive,
                entry.multi_line,
                entry.ignore_whitespace,
            ) {
                Ok(_) => {},
                Err(diagnostic) => {
                    let source = entry.source.clone();
                    return Err(SpellError::InvalidPattern { source, diagnostic });
                },
            }
            pi = pi + 1;
        }
        self.state = Some(
            LoadedState {
                symspell,
                guards,
                frequency_threshold_milli: config.frequency_threshold_milli,
                loaded_at: config.loaded_at,
                dictionary_size,
                edit_distance: config.edit_distance,
            },
        );
        Ok(())
    }

    /// Ranked corrections for `word`, at most `max` of them.
    pub fn suggest(&self, word: &str, max: usize) -> (r: Result<Vec<Suggestion>, SpellError>)
        requires
            self.wf(),
        ensures
            r is Ok <==> self.state is Some,
            r matches Err(e) ==> e == SpellError::NotLoaded,
            self.state matches Some(st) ==> (match r {
                Ok(v) => suggestions_post(st.symspell, normal_of(word@), max as int, v@),
                Err(_) => true,
            }),
    {
        match &self.state {
            Some(st) => Ok(st.symspell.suggestions(word, max)),
            None => Err(SpellError::NotLoaded),
        }
    }

    /// Whether `word`'s normalization is a dictionary key.
    pub fn is_known(&self, word: &str) -> (r: Result<bool, SpellError>)
        requires
            self.wf(),
        ensures
            r is Ok <==> self.state is Some,
            r matches Err(e) ==> e == SpellError::NotLoaded,
            self.state matches Some(st) ==> (match r {
                Ok(b) => b == known_spec(st, word@),
                Err(_) => true,
            }),
    {
        match &self.state {
            Some(st) => Ok(st.symspell.contains(word)),
            None => Err(SpellError::NotLoaded),
        }
    }

    /// Correct `word` when it looks wrong: protected and known words are
    /// returned unchanged; otherwise the best near miss that passes the
    /// frequency gate replaces it, if any does.
    pub fn correct_if_unknown(&self, word: &str, use_guard: bool) -> (r: Result<
        String,
        SpellError,
    >)
        requires
            self.wf(),
        ensures
            r is Ok <==> self.state is Some,
            r matches Err(e) ==> e == SpellError::NotLoaded,
            self.state matches Some(st) ==> (match r {
                Ok(s) => correction_post(st, word@, use_guard, s@),
                Err(_) => true,
            }),
    {
        match &self.state {
            Some(st) => Ok(correct_one(st, word, use_guard)),
            None => Err(SpellError::NotLoaded),
        }
    }

    /// Correct every token of a batch against one snapshot; the result
    /// has one entry per token, each meeting the same contract as
    /// `correct_if_unknown` on that token — which, by
    /// `lemma_correction_unique`, pins each entry to the same value a
    /// single correction returns.
    pub fn correct_tokens(&self, tokens: &Vec<String>, use_guard: bool) -> (r: Result<
        Vec<String>,
        SpellError,
    >)
        requires
            self.wf(),
        ensures
            r is Ok <==> self.state is Some,
            r matches Err(e) ==> e == SpellError::NotLoaded,
            self.state matches Some(st) ==> (match r {
                Ok(v) => v@.len() == tokens@.len() && (forall|i: int|
                    0 <= i < tokens@.len() ==> correction_post(
                        st,
                        (#[trigger] tokens@[i])@,
                        use_guard,
                        v@[i]@,
                    )),
                Err(_) => true,
            }),
    {
        match &self.state {
            Some(st) => {
                let mut out: Vec<String> = Vec::new();
                let mut i: usize = 0;
                while i < tokens.len()
                    invariant
                        i <= tokens@.len(),
                        out@.len() == i,
                        st.wf(),
                        forall|j: int|
                            0 <= j < i ==> correction_post(
                                *st,
                                (#[trigger] tokens@[j])@,
                                use_guard,
                                out@[j]@,
                            ),
                    decreases tokens@.len() - i,
                {
                    let corrected = correct_one(st, tokens[i].as_str(), use_guard);
                    out.push(corrected);
                    i = i + 1;
                }
                Ok(out)
            },
            None => Err(SpellError::NotLoaded),
        }
    }

    /// What is loaded: flag, dictionary size, edit distance and load
    /// time.
    pub fn stats(&self) -> (r: Stats)
        ensures
            self.state is None ==> r == (Stats {
                loaded: false,
                dictionary_size: None,
                edit_distance: None,
                loaded_at: None,
            }),
            self.state matches Some(st) ==> r == (Stats {
                loaded: true,
                dictionary_size: Some(st.dictionary_size),
                edit_distance: Some(st.edit_distance),
                loaded_at: st.loaded_at,
            }),
    {
        match &self.state {
            Some(st) => Stats {
                loaded: true,
                dictionary_size: Some(st.dictionary_size),
                edit_distance: Some(st.edit_distance),
                loaded_at: st.loaded_at,
            },
            None => Stats { loaded: false, dictionary_size: None, edit_distance: None, loaded_at: None },
        }
    }

    /// Whether the engine is ready to answer queries.
    pub fn healthcheck(&self) -> (r: Result<(), SpellError>)
        ensures
            r is Ok <==> self.state is Some,
            r matches Err(e) ==> e == SpellError::NotLoaded,
    {
        match &self.state {
            Some(_) => Ok(()),
            None => Err(SpellError::NotLoaded),
        }
    }
}

/// The result is the invalid-pattern error naming the first pattern
/// that does not compile.
pub open spec fn invalid_pattern_err(r: Result<(), SpellError>, ps: Seq<PatternEntry>) -> bool {
    match r {
        Err(e) => match e {
            SpellError::InvalidPattern { source, diagnostic } => first_pattern_failure(
                ps,
                source@,
            ),
            _ => false,
        },
        _ => false,
    }
}

/// The checker holds a snapshot produced by loading `config`.
pub open spec fn loaded_ok(c: Checker, config: LoadConfig) -> bool {
    match c.state {
        Some(st) => loaded_from(st, config),
        None => false,
    }
}

/// The snapshot `st` is what loading `config` produces.
pub open spec fn loaded_from(st: LoadedState, config: LoadConfig) -> bool {
    &&& st.edit_distance == config.edit_distance
    &&& st.symspell.max_edit_distance == config.edit_distance
    &&& st.frequency_threshold_milli == config.frequency_threshold_milli
    &&& st.loaded_at == config.loaded_at
    &&& st.dictionary_size == parse_dict_spec(config.dictionary_text@).len()
    &&& word_map_of(st.symspell.words) == built_words(parse_dict_spec(config.dictionary_text@))
    &&& chars_set_of(st.guards.protected_set) == (match config.protected_text {
        Some(t) => protected_additions(t@),
        None => crate::store::empty_chars_set(),
    })
    &&& patterns_match(st.guards, config.protected_patterns@)
}

/// One token's correction against a loaded snapshot.
fn correct_one(st: &LoadedState, word: &str, use_guard: bool) -> (r: String)
    requires
        st.wf(),
    ensures
        correction_post(*st, word@, use_guard, r@),
{
    let normalized = SymSpell::normalize_word(word);
    let ghost q = normal_of(word@);
    if use_guard && st.guards.is_protected_normalized(word, normalized.as_str()) {
        return String::from_str(word);
    }
    let suggestions = st.symspell.suggestions(word, 5);
    if suggestions.len() > 0 {
        let first_distance = suggestions[0].distance;
        if first_distance == 0 {
            proof {
                assert(sugg_valid(st.symspell, q, suggestions@[0]));
                let k0 = choose|k: Seq<char>|
                    {
                        &&& #[trigger] word_map_of(st.symspell.words).contains_key(k)
                        &&& suggestions@[0].term@ == word_map_of(st.symspell.words)[k].0
                        &&& suggestions@[0].frequency == word_map_of(st.symspell.words)[k].1
                        &&& suggestions@[0].distance == lev(q, k)
                        &&& suggestions@[0].distance <= st.symspell.max_edit_distance
                    };
                lemma_lev_zero_iff_eq(q, k0);
                assert(known_spec(*st, word@));
            }
            return String::from_str(word);
        }
    }
    proof {
        if known_spec(*st, word@) {
            if q.len() > 0 {
                assert(suggestions@.len() >= 1 && suggestions@[0].distance == 0);
                assert(false);
            }
            assert(suggestions@.len() == 0);
        }
    }
    let original_freq = st.symspell.get_frequency(word);
    let mut j: usize = 0;
    while j < suggestions.len()
        invariant
            j <= suggestions@.len(),
            st.wf(),
            q == normal_of(word@),
            suggestions_post(st.symspell, q, 5, suggestions@),
            known_spec(*st, word@) ==> suggestions@.len() == 0,
            suggestions@.len() > 0 ==> suggestions@[0].distance != 0,
            !(use_guard && (protected_spec(st.guards, word@) || protected_spec(st.guards, q))),
            forall|j2: int|
                0 <= j2 < j ==> !((#[trigger] suggestions@[j2]).distance <= 1 && gate_passes(
                    *st,
                    q,
                    suggestions@[j2].frequency,
                )),
            match original_freq {
                Some(f) => word_map_of(st.symspell.words).contains_key(q) && f == word_map_of(
                    st.symspell.words,
                )[q].1,
                None => !word_map_of(st.symspell.words).contains_key(q),
            },
        decreases suggestions@.len() - j,
    {
        let distance = suggestions[j].distance;
        if distance <= 1 {
            let freq = suggestions[j].frequency;
            let passes: bool = match original_freq {
                None => (freq as u128) * 1000 >= st.frequency_threshold_milli as u128,
                Some(f0) => (freq as u128) * 1000 >= (st.frequency_threshold_milli as u128) * (
                f0 as u128),
            };
            proof {
                assert(passes == gate_passes(*st, q, freq));
            }
            if passes {
                proof {
                    lemma_best_replacement(*st, q, suggestions@, j as int, use_guard, word@);
                }
                return suggestions[j].term.clone();
            }
        }
        j = j + 1;
    }
    proof {
        if q.len() > 0 && q.len() + 2 < usize::MAX {
            let wm = word_map_of(st.symspell.words);
            assert forall|k: Seq<char>| #[trigger]
                near_candidate(*st, q, k) implies !gate_passes(*st, q, wm[k].1) by {
                if gate_passes(*st, q, wm[k].1) {
                    lemma_distance_one_probed(st.symspell, q, k);
                    if exists|j2: int|
                        0 <= j2 < suggestions@.len() && (#[trigger] suggestions@[j2]).term@
                            == wm[k].0 {
                        let j2 = choose|j2: int|
                            0 <= j2 < suggestions@.len() && (#[trigger] suggestions@[j2]).term@
                                == wm[k].0;
                        lemma_listed_key(*st, q, suggestions@, j2, k);
                        assert(!(suggestions@[j2].distance <= 1 && gate_passes(
                            *st,
                            q,
                            suggestions@[j2].frequency,
                        )));
                        assert(false);
                    } else {
                        let li = suggestions@.len() - 1;
                        assert(suggestions@.len() >= 1 && rank_le(
                            suggestions@[li].distance as int,
                            suggestions@[li].frequency,
                            suggestions@[li].term@,
                            lev(q, k) as int,
                            wm[k].1,
                            wm[k].0,
                        ));
                        if li > 0 {
                            assert(sugg_le(suggestions@[0], suggestions@[li]));
                        }
                        assert(suggestions@[li].distance == 1);
                        assert(suggestions@[li].frequency >= wm[k].1);
                        lemma_gate_monotone(*st, q, wm[k].1, suggestions@[li].frequency);
                        assert(!(suggestions@[li].distance <= 1 && gate_passes(
                            *st,
                            q,
                            suggestions@[li].frequency,
                        )));
                        assert(false);
                    }
                }
            }
        }
    }
    String::from_str(word)
}

/// The key behind a listed suggestion whose term is `k`'s canonical form
/// is `k` itself, and the suggestion carries `k`'s count and distance.
proof fn lemma_listed_key(st: LoadedState, q: Seq<char>, sugs: Seq<Suggestion>, j2: int, k: Seq<char>)
    requires
        st.wf(),
        suggestions_post(st.symspell, q, 5, sugs),
        0 <= j2 < sugs.len(),
        word_map_of(st.symspell.words).contains_key(k),
        sugs[j2].term@ == word_map_of(st.symspell.words)[k].0,
    ensures
        sugs[j2].frequency == word_map_of(st.symspell.words)[k].1,
        sugs[j2].distance == lev(q, k),
{
    let wm = word_map_of(st.symspell.words);
    assert(sugg_valid(st.symspell, q, sugs[j2]));
    let kb = choose|kb: Seq<char>|
        {
            &&& #[trigger] wm.contains_key(kb)
            &&& sugs[j2].term@ == wm[kb].0
            &&& sugs[j2].frequency == wm[kb].1
            &&& sugs[j2].distance == lev(q, kb)
            &&& sugs[j2].distance <= st.symspell.max_edit_distance
        };
    assert(kb == normal_of(wm[kb].0));
    assert(k == normal_of(wm[k].0));
    assert(kb == k);
}

/// When the first gate-passing suggestion within distance one is taken,
/// it is the best-ranked key one edit from the query.
proof fn lemma_best_replacement(
    st: LoadedState,
    q: Seq<char>,
    sugs: Seq<Suggestion>,
    j: int,
    use_guard: bool,
    w: Seq<char>,
)
    requires
        st.wf(),
        q == normal_of(w),
        suggestions_post(st.symspell, q, 5, sugs),
        !known_spec(st, w),
        0 <= j < sugs.len(),
        sugs[j].distance <= 1,
        gate_passes(st, q, sugs[j].frequency),
        forall|j2: int|
            0 <= j2 < j ==> !((#[trigger] sugs[j2]).distance <= 1 && gate_passes(
                st,
                q,
                sugs[j2].frequency,
            )),
    ensures
        exists|k: Seq<char>|
            {
                &&& #[trigger] word_map_of(st.symspell.words).contains_key(k)
                &&& sugs[j].term@ == word_map_of(st.symspell.words)[k].0
                &&& lev(q, k) <= 1
                &&& gate_passes(st, q, word_map_of(st.symspell.words)[k].1)
            },
        q.len() + 2 < usize::MAX ==> exists|k: Seq<char>|
            {
                &&& #[trigger] best_near_candidate(st, q, k)
                &&& gate_passes(st, q, word_map_of(st.symspell.words)[k].1)
                &&& sugs[j].term@ == word_map_of(st.symspell.words)[k].0
            },
{
    let wm = word_map_of(st.symspell.words);
    assert(sugg_valid(st.symspell, q, sugs[j]));
    let kj = choose|k: Seq<char>|
        {
            &&& #[trigger] wm.contains_key(k)
            &&& sugs[j].term@ == wm[k].0
            &&& sugs[j].frequency == wm[k].1
            &&& sugs[j].distance == lev(q, k)
            &&& sugs[j].distance <= st.symspell.max_edit_distance
        };
    lemma_lev_zero_iff_eq(q, kj);
    assert(lev(q, kj) == 1) by {
        if lev(q, kj) == 0 {
            assert(kj == q);
            assert(false);
        }
    }
    assert(near_candidate(st, q, kj));
    assert(gate_passes(st, q, wm[kj].1));
    assert(q.len() > 0) by {
        if q.len() == 0 {
            assert(sugs.len() == 0);
        }
    }
    if q.len() + 2 < usize::MAX {
        assert forall|k2: Seq<char>| #[trigger] near_candidate(st, q, k2) implies ranks_no_worse(
            st,
            kj,
            k2,
        ) by {
            lemma_distance_one_probed(st.symspell, q, k2);
            if exists|j2: int|
                0 <= j2 < sugs.len() && (#[trigger] sugs[j2]).term@ == wm[k2].0 {
                let j2 = choose|j2: int|
                    0 <= j2 < sugs.len() && (#[trigger] sugs[j2]).term@ == wm[k2].0;
                lemma_listed_key(st, q, sugs, j2, k2);
                if j2 < j {
                    assert(!gate_passes(st, q, wm[k2].1));
                    if wm[k2].1 >= wm[kj].1 {
                        lemma_gate_monotone(st, q, wm[kj].1, wm[k2].1);
                        assert(false);
                    }
                } else if j2 == j {
                    assert(k2 == kj) by {
                        assert(kj == normal_of(wm[kj].0));
                        assert(k2 == normal_of(wm[k2].0));
                    }
                    lemma_lex_le_refl(wm[kj].0);
                } else {
                    assert(sugg_le(sugs[j], sugs[j2]));
                }
            } else {
                let li = sugs.len() - 1;
                assert(sugs.len() >= 1 && rank_le(
                    sugs[li].distance as int,
                    sugs[li].frequency,
                    sugs[li].term@,
                    lev(q, k2) as int,
                    wm[k2].1,
                    wm[k2].0,
                ));
                if j < li {
                    assert(sugg_le(sugs[j], sugs[li]));
                } else {
                    lemma_lex_le_refl(sugs[j].term@);
                }
                lemma_rank_le_trans(
                    sugs[j].distance as int,
                    sugs[j].frequency,
                    sugs[j].term@,
                    sugs[li].distance as int,
                    sugs[li].frequency,
                    sugs[li].term@,
                    lev(q, k2) as int,
                    wm[k2].1,
                    wm[k2].0,
                );
            }
        }
        assert(best_near_candidate(st, q, kj));
    }
}

/// The correction contract pins one result: two values meeting it for
/// the same snapshot, word and guard setting are equal. (Queries whose
/// normalization approaches the address-space bound are excluded, as in
/// `suggestions_post`.)
pub proof fn lemma_correction_unique(
    st: LoadedState,
    w: Seq<char>,
    use_guard: bool,
    r1: Seq<char>,
    r2: Seq<char>,
)
    requires
        st.wf(),
        normal_of(w).len() + 2 < usize::MAX,
        correction_post(st, w, use_guard, r1),
        correction_post(st, w, use_guard, r2),
    ensures
        r1 == r2,
{
    let q = normal_of(w);
    let wm = word_map_of(st.symspell.words);
    if use_guard && (protected_spec(st.guards, w) || protected_spec(st.guards, q)) {
    } else if known_spec(st, w) {
    } else if q.len() == 0 {
    } else if exists|k: Seq<char>| #[trigger]
        near_candidate(st, q, k) && gate_passes(st, q, wm[k].1) {
        let k1 = choose|k: Seq<char>|
            {
                &&& #[trigger] best_near_candidate(st, q, k)
                &&& gate_passes(st, q, wm[k].1)
                &&& r1 == wm[k].0
            };
        let k2 = choose|k: Seq<char>|
            {
                &&& #[trigger] best_near_candidate(st, q, k)
                &&& gate_passes(st, q, wm[k].1)
                &&& r2 == wm[k].0
            };
        assert(ranks_no_worse(st, k1, k2));
        assert(ranks_no_worse(st, k2, k1));
        if wm[k1].1 == wm[k2].1 {
            lemma_lex_le_antisym(wm[k1].0, wm[k2].0);
        }
        assert(r1 == r2);
    } else {
        lemma_no_passer_keeps_word(st, w, q, r1);
        lemma_no_passer_keeps_word(st, w, q, r2);
    }
}

/// With no gate-passing key one edit away, the fourth clause of the
/// contract forces the word back unchanged.
proof fn lemma_no_passer_keeps_word(st: LoadedState, w: Seq<char>, q: Seq<char>, r: Seq<char>)
    requires
        st.wf(),
        q == normal_of(w),
        !known_spec(st, w),
        forall|k: Seq<char>| #[trigger]
            near_candidate(st, q, k) ==> !gate_passes(
                st,
                q,
                word_map_of(st.symspell.words)[k].1,
            ),
        r == w || exists|k: Seq<char>|
            {
                &&& #[trigger] word_map_of(st.symspell.words).contains_key(k)
                &&& r == word_map_of(st.symspell.words)[k].0
                &&& lev(q, k) <= 1
                &&& gate_passes(st, q, word_map_of(st.symspell.words)[k].1)
            },
    ensures
        r == w,
{
    if r != w {
        let k = choose|k: Seq<char>|
            {
                &&& #[trigger] word_map_of(st.symspell.words).contains_key(k)
                &&& r == word_map_of(st.symspell.words)[k].0
                &&& lev(q, k) <= 1
                &&& gate_passes(st, q, word_map_of(st.symspell.words)[k].1)
            };
        lemma_lev_zero_iff_eq(q, k);
        if lev(q, k) == 0 {
            assert(k == q);
            assert(false);
        }
        assert(near_candidate(st, q, k));
        assert(false);
    }
}

/// Correction is idempotent: correcting a corrected token returns it
/// unchanged, with the same length caveat on the corrected token.
pub proof fn lemma_correction_idempotent(
    st: LoadedState,
    w: Seq<char>,
    use_guard: bool,
    r: Seq<char>,
    r2: Seq<char>,
)
    requires
        st.wf(),
        normal_of(r).len() + 2 < usize::MAX,
        correction_post(st, w, use_guard, r),
        correction_post(st, r, use_guard, r2),
    ensures
        r2 == r,
{
    if r == w {
        lemma_correction_unique(st, r, use_guard, r, r2);
    } else {
        let k = choose|k: Seq<char>|
            {
                &&& #[trigger] word_map_of(st.symspell.words).contains_key(k)
                &&& r == word_map_of(st.symspell.words)[k].0
                &&& lev(normal_of(w), k) <= 1
                &&& gate_passes(st, normal_of(w), word_map_of(st.symspell.words)[k].1)
            };
        assert(k == normal_of(word_map_of(st.symspell.words)[k].0));
        assert(known_spec(st, r));
    }
}

} // verus!
