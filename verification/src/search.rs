//! Searching the text labels of a page, by plain text or by regular expression.
//!
//! A plain search ignores case: it looks for the lower-case query in the lower-case
//! text. It compares the UTF-8 forms of the two byte by byte, and reports matches by
//! their byte offsets. A regular expression is handed to the `regex` crate.

use crate::alignment::lemma_contains_on_characters;
use crate::notebook::TextElement;
use regex::Regex;
use vstd::prelude::*;
use vstd::utf8::encode_utf8;

verus! {

/// `regex::Regex`: a compiled regular expression, carried as it is.
#[verifier::external_type_specification]
#[verifier::external_body]
pub struct ExRegex(Regex);

/// `regex::Error`: why a pattern was rejected, carried as it is.
#[verifier::external_type_specification]
#[verifier::external_body]
pub struct ExRegexError(regex::Error);

/// The pattern text that a compiled expression was built from.
pub uninterp spec fn pattern_source(re: Regex) -> Seq<char>;

/// Whether a compiled expression was built from its pattern text alone, with no option
/// set that changes what the pattern means.
pub uninterp spec fn plainly_built(re: Regex) -> bool;

/// Whether the expression written as `pattern` matches anywhere in `text`.
pub uninterp spec fn pattern_matches(pattern: Seq<char>, text: Seq<char>) -> bool;

/// The matches of the expression written as `pattern` in `text`, from left to right and
/// without overlap, each as the byte offsets of its start and its end.
pub uninterp spec fn pattern_spans(pattern: Seq<char>, text: Seq<char>) -> Seq<(usize, usize)>;

/// The words in which the `regex` crate describes why it rejected a pattern.
pub uninterp spec fn rejection_text(error: regex::Error) -> Seq<char>;

/// The lower-case form of a text.
pub uninterp spec fn lowercase(text: Seq<char>) -> Seq<char>;

/// `Regex::new`: compiles `pattern` with the default options, or says why it cannot.
/// A compiled expression remembers the pattern text it was built from.
#[verifier::external_body]
fn compile(pattern: &str) -> (compiled: Result<Regex, regex::Error>)
    ensures
        compiled matches Ok(re) ==> pattern_source(re) == pattern@ && plainly_built(re),
{
    Regex::new(pattern)
}

/// `Regex::is_match`: whether the expression matches anywhere in `text`. For an
/// expression built with the default options that depends on its pattern alone.
#[verifier::external_body]
fn is_match(re: &Regex, text: &str) -> (found: bool)
    requires
        plainly_built(*re),
    ensures
        found == pattern_matches(pattern_source(*re), text@),
{
    re.is_match(text)
}

/// `Regex::find_iter` with `Match::start` and `Match::end`: the matches of the expression
/// in `text`, each as a pair of byte offsets. No match ends before it starts. For an
/// expression built with the default options they depend on its pattern alone.
#[verifier::external_body]
fn find_spans(re: &Regex, text: &str) -> (spans: Vec<(usize, usize)>)
    requires
        plainly_built(*re),
    ensures
        spans@ == pattern_spans(pattern_source(*re), text@),
        forall|i: int| 0 <= i < spans@.len() ==> (#[trigger] spans@[i]).0 <= spans@[i].1,
{
    re.find_iter(text).map(|m| (m.start(), m.end())).collect()
}

/// `Display` of `regex::Error`: the words that describe a rejected pattern.
#[verifier::external_body]
fn rejection_message(error: &regex::Error) -> (message: String)
    ensures
        message@ == rejection_text(*error),
{
    error.to_string()
}

/// `str::to_lowercase`: the lower-case form of `text`.
#[verifier::external_body]
fn lowercased(text: &str) -> (lower: String)
    ensures
        lower@ == lowercase(text@),
{
    text.to_lowercase()
}

/// A regular expression that the `regex` crate has compiled with its default options.
pub struct Pattern {
    regex: Regex,
}

impl Pattern {
    #[verifier::type_invariant]
    spec fn built(self) -> bool {
        plainly_built(self.regex)
    }

    /// The pattern text that the expression was compiled from.
    pub closed spec fn source(self) -> Seq<char> {
        pattern_source(self.regex)
    }

    /// Compiles a pattern, or gives the error with which the `regex` crate rejects it.
    pub fn compile(pattern: &str) -> (compiled: Result<Pattern, regex::Error>)
        ensures
            compiled matches Ok(made) ==> made.source() == pattern@,
    {
        match compile(pattern) {
            Ok(regex) => Ok(Pattern { regex }),
            Err(error) => Err(error),
        }
    }

    /// Whether the expression matches anywhere in `text`.
    pub fn is_match(&self, text: &str) -> (found: bool)
        ensures
            found == pattern_matches(self.source(), text@),
    {
        proof {
            use_type_invariant(self);
        }
        is_match(&self.regex, text)
    }

    /// The matches of the expression in `text`, from left to right and without overlap.
    pub fn find_all(&self, text: &str) -> (spans: Vec<MatchSpan>)
        ensures
            spans@ == regex_spans(self.source(), text@),
    {
        proof {
            use_type_invariant(self);
        }
        let found = find_spans(&self.regex, text);
        let mut spans: Vec<MatchSpan> = Vec::new();
        let mut i: usize = 0;
        while i < found.len()
            invariant
                i <= found.len(),
                spans@.len() == i,
                forall|j: int| 0 <= j < found@.len() ==> (#[trigger] found@[j]).0 <= found@[j].1,
                forall|j: int|
                    0 <= j < i ==> spans@[j] == (MatchSpan {
                        start: found@[j].0,
                        len: (found@[j].1 - found@[j].0) as usize,
                    }),
            decreases found.len() - i,
        {
            let span = found[i];
            spans.push(MatchSpan { start: span.0, len: span.1 - span.0 });
            i = i + 1;
        }
        assert(spans@ =~= regex_spans(self.source(), text@));
        spans
    }
}

/// A match inside a text: the byte offset at which it starts and its length in bytes.
#[derive(Clone, Copy, Debug, PartialEq, Eq, Structural)]
pub struct MatchSpan {
    pub start: usize,
    pub len: usize,
}

/// What a search found: the indices of the matching labels, in rising order, or the
/// report of a pattern that could not be used.
pub struct SearchOutcome {
    pub matches: Vec<usize>,
    pub error: Option<String>,
}

/// Whether `needle` stands in `hay` at byte offset `at`.
pub open spec fn occurs_at(hay: Seq<u8>, needle: Seq<u8>, at: int) -> bool {
    &&& 0 <= at
    &&& at + needle.len() <= hay.len()
    &&& hay.subrange(at, at + needle.len()) == needle
}

/// Whether `needle` stands anywhere in `hay`.
pub open spec fn contains_bytes(hay: Seq<u8>, needle: Seq<u8>) -> bool {
    exists|at: int| occurs_at(hay, needle, at)
}

/// The byte offsets below `upto` at which `needle` stands in `hay`, in rising order.
/// Occurrences may overlap.
pub open spec fn occurrences(hay: Seq<u8>, needle: Seq<u8>, upto: nat) -> Seq<usize>
    decreases upto,
{
    if upto == 0 {
        Seq::empty()
    } else if occurs_at(hay, needle, upto - 1) {
        occurrences(hay, needle, (upto - 1) as nat).push((upto - 1) as usize)
    } else {
        occurrences(hay, needle, (upto - 1) as nat)
    }
}

/// Whether `word` stands in `text` from its character `j` on.
pub open spec fn stands_in(text: Seq<char>, word: Seq<char>, j: int) -> bool {
    &&& 0 <= j
    &&& j + word.len() <= text.len()
    &&& text.subrange(j, j + word.len()) == word
}

/// Whether a plain search for `query` finds `text`: the lower-case query stands
/// somewhere in the lower-case text.
pub open spec fn plain_match(query: Seq<char>, text: Seq<char>) -> bool {
    exists|j: int| #[trigger] stands_in(lowercase(text), lowercase(query), j)
}

/// The matches of a plain search for `query` in `text`: one for every byte offset at
/// which the lower-case query stands in the lower-case text, each as long as the query
/// itself.
pub open spec fn plain_spans(query: Seq<char>, text: Seq<char>) -> Seq<MatchSpan> {
    let hay = encode_utf8(lowercase(text));
    let needle = encode_utf8(lowercase(query));
    occurrences(hay, needle, hay.len() + 1).map_values(
        |at: usize| MatchSpan { start: at, len: encode_utf8(query).len() as usize },
    )
}

/// The matches of the expression written as `pattern` in `text`.
pub open spec fn regex_spans(pattern: Seq<char>, text: Seq<char>) -> Seq<MatchSpan> {
    pattern_spans(pattern, text).map_values(
        |span: (usize, usize)| MatchSpan { start: span.0, len: (span.1 - span.0) as usize },
    )
}

/// The indices at which `flags` holds `true`, in rising order.
pub open spec fn marked(flags: Seq<bool>) -> Seq<usize>
    decreases flags.len(),
{
    if flags.len() == 0 {
        Seq::empty()
    } else if flags.last() {
        marked(flags.drop_last()).push((flags.len() - 1) as usize)
    } else {
        marked(flags.drop_last())
    }
}

/// For each label, whether a plain search for `query` finds it.
pub open spec fn plain_flags<G>(elements: Seq<TextElement<G>>, query: Seq<char>) -> Seq<bool> {
    Seq::new(elements.len(), |i: int| plain_match(query, elements[i].text@))
}

/// For each label, whether the expression written as `pattern` matches it.
pub open spec fn regex_flags<G>(elements: Seq<TextElement<G>>, pattern: Seq<char>) -> Seq<bool> {
    Seq::new(elements.len(), |i: int| pattern_matches(pattern, elements[i].text@))
}

/// The report that a search gives of a rejected pattern.
pub open spec fn rejection_report(error: regex::Error) -> Seq<char> {
    "Regex error: "@ + rejection_text(error)
}

/// Whether `message` is the report of some rejected pattern.
pub open spec fn is_rejection_report(message: Seq<char>) -> bool {
    exists|error: regex::Error| message == #[trigger] rejection_report(error)
}

/// The sum of the numbers in `counts`.
pub open spec fn total(counts: Seq<nat>) -> int
    decreases counts.len(),
{
    if counts.len() == 0 {
        0
    } else {
        total(counts.drop_last()) + counts.last()
    }
}

/// A number of matches as a machine number: the largest one where it does not fit.
pub open spec fn capped(n: int) -> usize {
    if n <= usize::MAX {
        n as usize
    } else {
        usize::MAX
    }
}

/// For each index in `results`, the number of plain matches of `query` in the label it
/// names; none for an index that names no label.
pub open spec fn plain_counts<G>(elements: Seq<TextElement<G>>, results: Seq<usize>, query: Seq<char>) -> Seq<
    nat,
> {
    Seq::new(
        results.len(),
        |j: int|
            if results[j] < elements.len() {
                plain_spans(query, elements[results[j] as int].text@).len()
            } else {
                0
            },
    )
}

/// For each index in `results`, the number of matches of the expression written as
/// `pattern` in the label it names; none for an index that names no label.
pub open spec fn regex_counts<G>(elements: Seq<TextElement<G>>, results: Seq<usize>, pattern: Seq<char>) -> Seq<
    nat,
> {
    Seq::new(
        results.len(),
        |j: int|
            if results[j] < elements.len() {
                regex_spans(pattern, elements[results[j] as int].text@).len()
            } else {
                0
            },
    )
}

/// `occurrences` lists the offsets at which the needle stands, all of them below `upto`
/// and each once, from the lowest to the highest.
pub proof fn lemma_occurrences(hay: Seq<u8>, needle: Seq<u8>, upto: nat)
    requires
        upto <= usize::MAX + 1,
    ensures
        forall|i: int|
            0 <= i < occurrences(hay, needle, upto).len() ==> occurs_at(
                hay,
                needle,
                (#[trigger] occurrences(hay, needle, upto)[i]) as int,
            ) && occurrences(hay, needle, upto)[i] < upto,
        forall|i: int, j: int|
            0 <= i < j < occurrences(hay, needle, upto).len() ==> occurrences(hay, needle, upto)[i]
                < occurrences(hay, needle, upto)[j],
        forall|at: int|
            0 <= at < upto && occurs_at(hay, needle, at) ==> occurrences(hay, needle, upto).contains(
                at as usize,
            ),
    decreases upto,
{
    if upto > 0 {
        let before = occurrences(hay, needle, (upto - 1) as nat);
        let all = occurrences(hay, needle, upto);
        lemma_occurrences(hay, needle, (upto - 1) as nat);
        assert forall|at: int| 0 <= at < upto && occurs_at(hay, needle, at) implies all.contains(
            at as usize,
        ) by {
            if at < upto - 1 {
                let i = choose|i: int| 0 <= i < before.len() && before[i] == at as usize;
                assert(all[i] == at as usize);
            } else {
                assert(all[all.len() - 1] == at as usize);
            }
        }
    }
}

/// `marked` lists the indices at which a flag is set, each once, from the lowest to the
/// highest.
pub proof fn lemma_marked(flags: Seq<bool>)
    requires
        flags.len() <= usize::MAX,
    ensures
        forall|i: int|
            0 <= i < marked(flags).len() ==> (#[trigger] marked(flags)[i]) < flags.len() && flags[marked(
                flags,
            )[i] as int],
        forall|i: int, j: int| 0 <= i < j < marked(flags).len() ==> marked(flags)[i] < marked(flags)[j],
        forall|k: int| 0 <= k < flags.len() && flags[k] ==> marked(flags).contains(k as usize),
    decreases flags.len(),
{
    if flags.len() > 0 {
        let shorter = flags.drop_last();
        let before = marked(shorter);
        let all = marked(flags);
        lemma_marked(shorter);
        assert forall|k: int| 0 <= k < flags.len() && flags[k] implies all.contains(k as usize) by {
            if k < shorter.len() {
                assert(shorter[k]);
                let i = choose|i: int| 0 <= i < before.len() && before[i] == k as usize;
                assert(all[i] == k as usize);
            } else {
                assert(all[all.len() - 1] == k as usize);
            }
        }
    }
}

/// No occurrence lies between `from` and `upto` where none is found there.
proof fn lemma_occurrences_gap(hay: Seq<u8>, needle: Seq<u8>, from: nat, upto: nat)
    requires
        from <= upto,
        forall|at: int| from <= at < upto ==> !occurs_at(hay, needle, at),
    ensures
        occurrences(hay, needle, upto) == occurrences(hay, needle, from),
    decreases upto - from,
{
    if from < upto {
        lemma_occurrences_gap(hay, needle, from, (upto - 1) as nat);
    }
}

/// Whether `needle` stands in `hay` at offset `at`.
fn stands_at(hay: &[u8], needle: &[u8], at: usize) -> (found: bool)
    requires
        at + needle@.len() <= hay@.len(),
    ensures
        found == occurs_at(hay@, needle@, at as int),
{
    let size = hay.len();
    let mut j: usize = 0;
    while j < needle.len()
        invariant
            j <= needle@.len(),
            at + needle@.len() <= hay@.len(),
            size == hay@.len(),
            forall|i: int| 0 <= i < j ==> hay@[at + i] == needle@[i],
        decreases needle@.len() - j,
    {
        if hay[at + j] != needle[j] {
            assert(hay@.subrange(at as int, at + needle@.len())[j as int] != needle@[j as int]);
            return false;
        }
        j = j + 1;
    }
    assert(hay@.subrange(at as int, at + needle@.len()) =~= needle@);
    true
}

/// Whether `needle` stands anywhere in `hay`.
fn holds(hay: &[u8], needle: &[u8]) -> (found: bool)
    ensures
        found == contains_bytes(hay@, needle@),
{
    if needle.len() > hay.len() {
        return false;
    }
    let last = hay.len() - needle.len();
    let mut at: usize = 0;
    loop
        invariant
            last == hay@.len() - needle@.len(),
            at <= last,
            forall|a: int| 0 <= a < at ==> !occurs_at(hay@, needle@, a),
        decreases last - at,
    {
        if stands_at(hay, needle, at) {
            return true;
        }
        if at == last {
            return false;
        }
        at = at + 1;
    }
}

/// Every offset at which `needle` stands in `hay`, in rising order.
fn all_occurrences(hay: &[u8], needle: &[u8]) -> (starts: Vec<usize>)
    ensures
        starts@ == occurrences(hay@, needle@, hay@.len() + 1),
{
    let mut starts: Vec<usize> = Vec::new();
    if needle.len() > hay.len() {
        proof {
            lemma_occurrences_gap(hay@, needle@, 0, hay@.len() + 1);
        }
        return starts;
    }
    let last = hay.len() - needle.len();
    let mut at: usize = 0;
    loop
        invariant
            last == hay@.len() - needle@.len(),
            at <= last,
            starts@ == occurrences(hay@, needle@, at as nat),
        decreases last - at,
    {
        if stands_at(hay, needle, at) {
            starts.push(at);
        }
        if at == last {
            proof {
                lemma_occurrences_gap(hay@, needle@, (at + 1) as nat, hay@.len() + 1);
            }
            return starts;
        }
        at = at + 1;
    }
}

/// The labels that a plain search for `query` finds: the indices of those whose
/// lower-case text holds the lower-case query.
pub fn search_plain<G>(elements: &Vec<TextElement<G>>, query: &str) -> (matches: Vec<usize>)
    ensures
        matches@ == marked(plain_flags(elements@, query@)),
{
    let needle = lowercased(query);
    let ghost flags = plain_flags(elements@, query@);
    let mut matches: Vec<usize> = Vec::new();
    let mut i: usize = 0;
    while i < elements.len()
        invariant
            i <= elements.len(),
            needle@ == lowercase(query@),
            flags == plain_flags(elements@, query@),
            matches@ == marked(flags.take(i as int)),
        decreases elements.len() - i,
    {
        let lower = lowercased(elements[i].text.as_str());
        let found = holds(lower.as_str().as_bytes(), needle.as_str().as_bytes());
        proof {
            lemma_contains_on_characters(lower@, needle@);
            assert(flags.take(i + 1).drop_last() == flags.take(i as int));
            assert(flags.take(i + 1).last() == found);
        }
        if found {
            matches.push(i);
        }
        i = i + 1;
    }
    proof {
        assert(flags.take(elements.len() as int) == flags);
    }
    matches
}

/// The outcome of a search by regular expression, given what compiling the pattern
/// gave: the labels that the expression matches, or the report of the rejection.
pub fn search_compiled<G>(elements: &Vec<TextElement<G>>, compiled: &Result<Pattern, regex::Error>) -> (out:
    SearchOutcome)
    ensures
        compiled matches Ok(re) ==> out.error is None && out.matches@ == marked(
            regex_flags(elements@, re.source()),
        ),
        compiled matches Err(error) ==> out.matches@ == Seq::<usize>::empty() && out.error is Some
            && out.error->0@ == rejection_report(*error),
{
    let mut matches: Vec<usize> = Vec::new();
    match compiled {
        Ok(re) => {
            let ghost flags = regex_flags(elements@, re.source());
            let mut i: usize = 0;
            while i < elements.len()
                invariant
                    i <= elements.len(),
                    flags == regex_flags(elements@, re.source()),
                    matches@ == marked(flags.take(i as int)),
                decreases elements.len() - i,
            {
                let found = re.is_match(elements[i].text.as_str());
                proof {
                    assert(flags.take(i + 1).drop_last() == flags.take(i as int));
                    assert(flags.take(i + 1).last() == found);
                }
                if found {
                    matches.push(i);
                }
                i = i + 1;
            }
            proof {
                assert(flags.take(elements.len() as int) == flags);
            }
            SearchOutcome { matches, error: None }
        },
        Err(error) => {
            let mut message = String::from_str("Regex error: ");
            let detail = rejection_message(error);
            message.append(detail.as_str());
            SearchOutcome { matches, error: Some(message) }
        },
    }
}

/// Searches the labels of a page. An empty query finds nothing. A plain search finds
/// the labels that hold the query, whatever the case of the letters. A search by regular
/// expression finds the labels that the expression matches, or reports why the `regex`
/// crate rejects the pattern.
pub fn perform_search<G>(elements: &Vec<TextElement<G>>, query: &str, regex_mode: bool) -> (out: SearchOutcome)
    ensures
        query@.len() == 0 ==> out.error is None && out.matches@ == Seq::<usize>::empty(),
        query@.len() > 0 && !regex_mode ==> out.error is None && out.matches@ == marked(
            plain_flags(elements@, query@),
        ),
        query@.len() > 0 && regex_mode ==> (out.error is None && out.matches@ == marked(
            regex_flags(elements@, query@),
        )) || (out.matches@ == Seq::<usize>::empty() && out.error is Some && is_rejection_report(
            out.error->0@,
        )),
{
    if query.is_empty() {
        SearchOutcome { matches: Vec::new(), error: None }
    } else if regex_mode {
        let compiled = Pattern::compile(query);
        let out = search_compiled(elements, &compiled);
        proof {
            if let Err(error) = compiled {
                assert(out.error->0@ == rejection_report(error));
            }
        }
        out
    } else {
        SearchOutcome { matches: search_plain(elements, query), error: None }
    }
}

/// The matches of a plain search for `query` in `text`.
pub fn positions_plain(text: &str, query: &str) -> (spans: Vec<MatchSpan>)
    ensures
        spans@ == plain_spans(query@, text@),
{
    let lower = lowercased(text);
    let needle = lowercased(query);
    let starts = all_occurrences(lower.as_str().as_bytes(), needle.as_str().as_bytes());
    let width = query.len();
    let mut spans: Vec<MatchSpan> = Vec::new();
    let mut i: usize = 0;
    while i < starts.len()
        invariant
            i <= starts.len(),
            spans@.len() == i,
            forall|j: int| 0 <= j < i ==> spans@[j] == (MatchSpan { start: starts@[j], len: width }),
        decreases starts.len() - i,
    {
        spans.push(MatchSpan { start: starts[i], len: width });
        i = i + 1;
    }
    assert(spans@ =~= plain_spans(query@, text@));
    spans
}

/// The matches of a regular expression in `text`, given what compiling the pattern
/// gave: none where the pattern was rejected.
pub fn positions_compiled(text: &str, compiled: &Result<Pattern, regex::Error>) -> (spans: Vec<MatchSpan>)
    ensures
        compiled matches Ok(re) ==> spans@ == regex_spans(re.source(), text@),
        compiled is Err ==> spans@ == Seq::<MatchSpan>::empty(),
{
    match compiled {
        Ok(re) => re.find_all(text),
        Err(_) => Vec::new(),
    }
}

/// Where `query` matches in `text`. An empty query matches nowhere. A plain search
/// matches wherever the lower-case query stands in the lower-case text. A regular
/// expression matches where the `regex` crate finds it, and nowhere if the crate rejects
/// the pattern.
pub fn get_match_positions(text: &str, query: &str, regex_mode: bool) -> (spans: Vec<MatchSpan>)
    ensures
        query@.len() == 0 ==> spans@ == Seq::<MatchSpan>::empty(),
        query@.len() > 0 && !regex_mode ==> spans@ == plain_spans(query@, text@),
        query@.len() > 0 && regex_mode ==> spans@ == regex_spans(query@, text@) || spans@ == Seq::<
            MatchSpan,
        >::empty(),
{
    if query.is_empty() {
        Vec::new()
    } else if regex_mode {
        let compiled = Pattern::compile(query);
        positions_compiled(text, &compiled)
    } else {
        positions_plain(text, query)
    }
}

/// A sum of counts is never negative.
proof fn lemma_total_not_negative(counts: Seq<nat>)
    ensures
        0 <= total(counts),
    decreases counts.len(),
{
    if counts.len() > 0 {
        lemma_total_not_negative(counts.drop_last());
    }
}

/// Adds a count to a running total that stays at the largest number once it got there.
fn add_capped(sum: usize, count: usize, Ghost(exact): Ghost<int>) -> (next: usize)
    requires
        0 <= exact,
        sum == capped(exact),
    ensures
        next == capped(exact + count),
{
    if count > usize::MAX - sum {
        usize::MAX
    } else {
        sum + count
    }
}

/// The number of plain matches of `query` in the labels that `results` names, an index
/// counted as often as it is named.
pub fn total_plain<G>(elements: &Vec<TextElement<G>>, results: &Vec<usize>, query: &str) -> (sum: usize)
    ensures
        sum == capped(total(plain_counts(elements@, results@, query@))),
{
    let ghost counts = plain_counts(elements@, results@, query@);
    let mut sum: usize = 0;
    let mut j: usize = 0;
    while j < results.len()
        invariant
            j <= results.len(),
            counts == plain_counts(elements@, results@, query@),
            sum == capped(total(counts.take(j as int))),
        decreases results.len() - j,
    {
        let index = results[j];
        proof {
            assert(counts.take(j + 1).drop_last() == counts.take(j as int));
            lemma_total_not_negative(counts.take(j as int));
        }
        if index < elements.len() {
            let spans = positions_plain(elements[index].text.as_str(), query);
            sum = add_capped(sum, spans.len(), Ghost(total(counts.take(j as int))));
        }
        j = j + 1;
    }
    proof {
        assert(counts.take(results.len() as int) == counts);
    }
    sum
}

/// The number of matches of a regular expression in the labels that `results` names,
/// given what compiling the pattern gave: none where the pattern was rejected.
pub fn total_compiled<G>(
    elements: &Vec<TextElement<G>>,
    results: &Vec<usize>,
    compiled: &Result<Pattern, regex::Error>,
) -> (sum: usize)
    ensures
        compiled matches Ok(re) ==> sum == capped(total(regex_counts(elements@, results@, re.source()))),
        compiled is Err ==> sum == 0,
{
    let mut sum: usize = 0;
    match compiled {
        Ok(re) => {
            let ghost counts = regex_counts(elements@, results@, re.source());
            let mut j: usize = 0;
            while j < results.len()
                invariant
                    j <= results.len(),
                    counts == regex_counts(elements@, results@, re.source()),
                    sum == capped(total(counts.take(j as int))),
                decreases results.len() - j,
            {
                let index = results[j];
                proof {
                    assert(counts.take(j + 1).drop_last() == counts.take(j as int));
                    lemma_total_not_negative(counts.take(j as int));
                }
                if index < elements.len() {
                    let spans = re.find_all(elements[index].text.as_str());
                    sum = add_capped(sum, spans.len(), Ghost(total(counts.take(j as int))));
                }
                j = j + 1;
            }
            proof {
                assert(counts.take(results.len() as int) == counts);
            }
        },
        Err(_) => {},
    }
    sum
}

/// The number of matches of `query` in the labels that `results` names. A sum that no
/// machine number holds is given as the largest one.
pub fn get_total_match_count<G>(
    elements: &Vec<TextElement<G>>,
    results: &Vec<usize>,
    query: &str,
    regex_mode: bool,
) -> (sum: usize)
    ensures
        query@.len() == 0 ==> sum == 0,
        query@.len() > 0 && !regex_mode ==> sum == capped(total(plain_counts(elements@, results@, query@))),
        query@.len() > 0 && regex_mode ==> sum == capped(total(regex_counts(elements@, results@, query@)))
            || sum == 0,
{
    if query.is_empty() {
        0
    } else if regex_mode {
        let compiled = Pattern::compile(query);
        total_compiled(elements, results, &compiled)
    } else {
        total_plain(elements, results, query)
    }
}

} // verus!
