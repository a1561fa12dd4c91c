//! The tokenizer: an ordered list of matchers, each a compiled regular
//! expression with the token type it produces, and a policy that decides
//! between matchers that fire at the same position.
use regex::Regex;
use vstd::prelude::*;
use vstd::string::StringSliceAdditionalSpecFns;
use vstd::utf8::*;

verus! {

/// Identifies a lexical category.
pub type TokenTypeId = i32;

#[verifier::external_type_specification]
#[verifier::external_body]
pub struct ExRegex(regex::Regex);

#[verifier::external_type_specification]
#[verifier::external_body]
pub struct ExRegexError(regex::Error);

/// Whether `Regex::new` accepts the pattern text.
pub uninterp spec fn pattern_compiles(pattern: Seq<char>) -> bool;

/// What `Regex::captures` reports for a regex compiled from `pattern` when
/// it searches the UTF-8 bytes `haystack`: for each group, in order, the byte
/// span it matched, or `None` for a group that took no part.
pub uninterp spec fn captures_of(pattern: Seq<char>, haystack: Seq<u8>) -> Option<
    Seq<Option<(usize, usize)>>,
>;

/// Groups as `captures` documents them: the whole match comes first and is
/// always present, and each span lies inside the haystack, ordered, on
/// character boundaries.
pub open spec fn groups_well_formed(groups: Seq<Option<(usize, usize)>>, haystack: Seq<u8>) -> bool {
    &&& groups.len() > 0
    &&& groups[0] is Some
    &&& forall|j: int|
        0 <= j < groups.len() && (#[trigger] groups[j]) is Some ==> {
            let (s, e) = groups[j].unwrap();
            &&& s <= e <= haystack.len()
            &&& is_char_boundary(haystack, s as int)
            &&& is_char_boundary(haystack, e as int)
        }
}

/// The groups of a search result, as a sequence.
pub open spec fn view_groups(r: Option<Vec<Option<(usize, usize)>>>) -> Option<
    Seq<Option<(usize, usize)>>,
> {
    match r {
        Some(v) => Some(v@),
        None => None,
    }
}

/// Relies on regex::Regex::new: whether it accepts a pattern (valid syntax,
/// within the default size limit) depends on the pattern text alone.
#[verifier::external_body]
fn compile_pattern(pattern: &str) -> (r: Result<Regex, regex::Error>)
    ensures
        r is Ok <==> pattern_compiles(pattern@),
{
    Regex::new(pattern)
}

/// Relies on regex::Regex::captures, read out through Captures::iter and
/// Match::start / Match::end. Every `Matcher` comes from `Matcher::new`,
/// which compiles `source` with `Regex::new` and keeps the text beside the
/// regex, so what is found depends on that text and the haystack alone. The
/// layout is the one the crate documents: group 0, the whole match, is always
/// present, and every span is ordered and falls on UTF-8 boundaries of the
/// haystack.
#[verifier::external_body]
fn search(m: &Matcher, haystack: &str) -> (r: Option<Vec<Option<(usize, usize)>>>)
    ensures
        view_groups(r) == captures_of(m.source@, haystack.spec_bytes()),
        r matches Some(g) ==> groups_well_formed(g@, haystack.spec_bytes()),
{
    m.pattern.captures(haystack).map(
        |c| c.iter().map(|g| g.map(|x| (x.start(), x.end()))).collect(),
    )
}

/// A pattern text that the regex engine refused.
#[derive(Debug)]
pub struct InvalidPattern {
    pub pattern: String,
}

/// A compiled pattern and the token type it produces.
pub struct Matcher {
    pattern: Regex,
    source: String,
    to_type: TokenTypeId,
}

impl Matcher {
    /// The pattern text this matcher was compiled from.
    pub closed spec fn pattern_text(&self) -> Seq<char> {
        self.source@
    }

    /// The token type this matcher produces.
    pub closed spec fn token_type(&self) -> TokenTypeId {
        self.to_type
    }

    /// Compiles `pattern`; fails, naming the pattern, exactly when the regex
    /// engine refuses it.
    pub fn new(pattern: &str, to_type: TokenTypeId) -> (r: Result<Matcher, InvalidPattern>)
        ensures
            r is Ok <==> pattern_compiles(pattern@),
            r matches Ok(m) ==> m.pattern_text() == pattern@ && m.token_type() == to_type,
            r matches Err(e) ==> e.pattern@ == pattern@,
    {
        match compile_pattern(pattern) {
            Ok(compiled) => Ok(Matcher { pattern: compiled, source: pattern.to_owned(), to_type }),
            Err(_) => Err(InvalidPattern { pattern: pattern.to_owned() }),
        }
    }
}

/// How the tokenizer decides between matchers that fire at one position.
#[derive(Clone, Copy, Debug, PartialEq, Eq)]
pub enum MatcherPriority {
    /// The earliest registered matcher that fires wins.
    First,
    /// The longest match wins; on equal lengths the earlier matcher stays.
    Longest,
    /// The shortest match wins; on equal lengths the earlier matcher stays.
    Shortest,
}

/// A token: its type and the text of each group of the winning match,
/// borrowed from the input. `parts[0]` is the whole match.
#[derive(Debug)]
pub struct Token<'a> {
    pub typ: TokenTypeId,
    pub parts: Vec<Option<&'a str>>,
}

/// One step of a scan: which matcher won, the byte offset of the cursor,
/// and the group spans of the winning match, relative to the cursor.
pub struct Lexeme {
    pub matcher: int,
    pub at: int,
    pub groups: Seq<Option<(usize, usize)>>,
}

/// The span of the whole match.
pub open spec fn whole_span(groups: Seq<Option<(usize, usize)>>) -> (int, int) {
    if groups.len() > 0 && groups[0] is Some {
        (groups[0].unwrap().0 as int, groups[0].unwrap().1 as int)
    } else {
        (0, 0)
    }
}

/// The length in bytes of the whole match.
pub open spec fn match_len(groups: Seq<Option<(usize, usize)>>) -> int {
    whole_span(groups).1 - whole_span(groups).0
}

/// Whether a later match of `next_len` bytes replaces the one held, of
/// `held_len` bytes: only a strictly longer (`Longest`) or strictly shorter
/// (`Shortest`) one does, and under `First` none.
pub open spec fn replaces_spec(priority: MatcherPriority, held_len: int, next_len: int) -> bool {
    match priority {
        MatcherPriority::First => false,
        MatcherPriority::Longest => held_len < next_len,
        MatcherPriority::Shortest => held_len > next_len,
    }
}

/// Whether a later match of `next_len` bytes replaces the one held, of
/// `held_len` bytes.
pub fn replaces(priority: MatcherPriority, held_len: usize, next_len: usize) -> (r: bool)
    ensures
        r == replaces_spec(priority, held_len as int, next_len as int),
{
    match priority {
        MatcherPriority::First => false,
        MatcherPriority::Longest => held_len < next_len,
        MatcherPriority::Shortest => held_len > next_len,
    }
}

/// Which of the first `n` patterns wins on `hay`: they are tried in order,
/// and a later one replaces the one held only when the priority says so.
pub open spec fn winner(
    pats: Seq<Seq<char>>,
    priority: MatcherPriority,
    hay: Seq<u8>,
    n: int,
) -> Option<int>
    decreases n,
{
    if n <= 0 {
        None
    } else {
        let held = winner(pats, priority, hay, n - 1);
        match captures_of(pats[n - 1], hay) {
            None => held,
            Some(g) => match held {
                None => Some(n - 1),
                Some(k) => if replaces_spec(
                    priority,
                    match_len(captures_of(pats[k], hay).unwrap()),
                    match_len(g),
                ) {
                    Some(n - 1)
                } else {
                    held
                },
            },
        }
    }
}

/// The scan of `text` from byte offset `pos`: the steps taken, and the
/// offset where the scan stopped. It stops at the end of the text, where no
/// pattern fires, or where the winning match would not move the cursor.
/// (Malformed groups, which the regex engine never reports, stop it too.)
pub open spec fn scan(pats: Seq<Seq<char>>, priority: MatcherPriority, text: Seq<u8>, pos: int) -> (
    Seq<Lexeme>,
    int,
)
    decreases text.len() - pos,
{
    if pos < 0 || pos >= text.len() {
        (seq![], pos)
    } else {
        let hay = text.subrange(pos, text.len() as int);
        match winner(pats, priority, hay, pats.len() as int) {
            None => (seq![], pos),
            Some(k) => {
                let g = captures_of(pats[k], hay).unwrap();
                let end = whole_span(g).1;
                if !groups_well_formed(g, hay) || end == 0 {
                    (seq![], pos)
                } else {
                    let rest = scan(pats, priority, text, pos + end);
                    (seq![Lexeme { matcher: k, at: pos, groups: g }] + rest.0, rest.1)
                }
            },
        }
    }
}

/// Why a scan stops on a non-empty `hay`: no pattern fires there, or the
/// winning match ends at the cursor and so would not move it.
pub open spec fn stops_on(pats: Seq<Seq<char>>, priority: MatcherPriority, hay: Seq<u8>) -> bool {
    match winner(pats, priority, hay, pats.len() as int) {
        None => true,
        Some(k) => whole_span(captures_of(pats[k], hay).unwrap()).1 == 0,
    }
}

/// The whole match of a token: its first part, as bytes.
pub open spec fn whole_text(t: Token) -> Seq<u8> {
    if t.parts@.len() > 0 && t.parts@[0] is Some {
        t.parts@[0].unwrap().spec_bytes()
    } else {
        seq![]
    }
}

/// The whole matches of `tokens`, one after another.
pub open spec fn joined_parts(tokens: Seq<Token>) -> Seq<u8>
    decreases tokens.len(),
{
    if tokens.len() == 0 {
        seq![]
    } else {
        whole_text(tokens[0]) + joined_parts(tokens.drop_first())
    }
}

/// The token `t` is what the step `lx` of a scan of `text` emits.
pub open spec fn token_agrees(t: Token, lx: Lexeme, types: Seq<TokenTypeId>, text: Seq<u8>) -> bool {
    &&& t.typ == types[lx.matcher]
    &&& t.parts@.len() == lx.groups.len()
    &&& forall|j: int|
        0 <= j < lx.groups.len() ==> match #[trigger] lx.groups[j] {
            None => t.parts@[j] is None,
            Some(sp) => t.parts@[j] is Some && t.parts@[j].unwrap().spec_bytes() == text.subrange(
                lx.at + sp.0,
                lx.at + sp.1,
            ),
        }
}

proof fn lemma_boundary_in_prefix(bytes: Seq<u8>, e: int, s: int)
    requires
        valid_utf8(bytes),
        is_char_boundary(bytes, e),
        is_char_boundary(bytes, s),
        0 <= s <= e <= bytes.len(),
    ensures
        is_char_boundary(bytes.subrange(0, e), s),
{
    valid_utf8_split(bytes, e);
    let head = bytes.subrange(0, e);
    if s == e {
        is_char_boundary_start_end_of_seq(head);
    } else {
        is_char_boundary_iff_not_is_continuation_byte(bytes, s);
        is_char_boundary_iff_not_is_continuation_byte(head, s);
    }
}

/// The text of each group, cut out of `hay`; `None` for a group that took
/// no part.
pub fn group_texts<'a>(hay: &'a str, groups: &Vec<Option<(usize, usize)>>) -> (parts: Vec<
    Option<&'a str>,
>)
    requires
        groups_well_formed(groups@, hay.spec_bytes()),
    ensures
        parts@.len() == groups@.len(),
        forall|j: int|
            0 <= j < groups@.len() ==> match #[trigger] groups@[j] {
                None => parts@[j] is None,
                Some(sp) => parts@[j] is Some && parts@[j].unwrap().spec_bytes()
                    == hay.spec_bytes().subrange(sp.0 as int, sp.1 as int),
            },
{
    let ghost bytes = hay.spec_bytes();
    proof {
        encode_utf8_valid_utf8(hay@);
    }
    let mut parts: Vec<Option<&'a str>> = Vec::new();
    let mut j: usize = 0;
    while j < groups.len()
        invariant
            j <= groups@.len(),
            bytes == hay.spec_bytes(),
            valid_utf8(bytes),
            groups_well_formed(groups@, bytes),
            parts@.len() == j,
            forall|i: int|
                0 <= i < j ==> match #[trigger] groups@[i] {
                    None => parts@[i] is None,
                    Some(sp) => parts@[i] is Some && parts@[i].unwrap().spec_bytes()
                        == bytes.subrange(sp.0 as int, sp.1 as int),
                },
        decreases groups@.len() - j,
    {
        match groups[j] {
            None => {
                parts.push(None);
            },
            Some((s, e)) => {
                assert(groups@[j as int] is Some);
                let (head, _) = hay.split_at(e);
                proof {
                    lemma_boundary_in_prefix(bytes, e as int, s as int);
                }
                let (_, part) = head.split_at(s);
                assert(part.spec_bytes() =~= bytes.subrange(s as int, e as int));
                parts.push(Some(part));
            },
        }
        j += 1;
    }
    parts
}

/// The length in bytes of the whole match.
fn whole_len(groups: &Vec<Option<(usize, usize)>>, hay: Ghost<Seq<u8>>) -> (n: usize)
    requires
        groups_well_formed(groups@, hay@),
    ensures
        n == match_len(groups@),
{
    let (s, e) = groups[0].unwrap();
    e - s
}


proof fn lemma_winner_fires(pats: Seq<Seq<char>>, priority: MatcherPriority, hay: Seq<u8>, n: int)
    ensures
        winner(pats, priority, hay, n) matches Some(k) ==> 0 <= k < n && captures_of(
            pats[k],
            hay,
        ) is Some,
    decreases n,
{
    if n > 0 {
        lemma_winner_fires(pats, priority, hay, n - 1);
    }
}

proof fn lemma_first_settles(pats: Seq<Seq<char>>, hay: Seq<u8>, j: int, n: int)
    requires
        j <= n,
        winner(pats, MatcherPriority::First, hay, j) is Some,
    ensures
        winner(pats, MatcherPriority::First, hay, n) == winner(
            pats,
            MatcherPriority::First,
            hay,
            j,
        ),
    decreases n - j,
{
    if j < n {
        lemma_first_settles(pats, hay, j, n - 1);
    }
}

/// The haystack that a scan of `text` searches at byte offset `at`.
pub open spec fn rest_at(text: Seq<u8>, at: int) -> Seq<u8> {
    text.subrange(at, text.len() as int)
}

/// Every step of a scan from `pos` is the winner at its cursor, with the
/// groups the regex engine reported there; the steps move forward and the
/// scan stops inside the text.
proof fn lemma_scan_steps(pats: Seq<Seq<char>>, priority: MatcherPriority, text: Seq<u8>, pos: int)
    requires
        0 <= pos <= text.len(),
    ensures
        ({
            let (steps, stop) = scan(pats, priority, text, pos);
            &&& pos <= stop <= text.len()
            &&& forall|k: int|
                0 <= k < steps.len() ==> {
                    let lx = #[trigger] steps[k];
                    &&& pos <= lx.at < text.len()
                    &&& winner(pats, priority, rest_at(text, lx.at), pats.len() as int) == Some(
                        lx.matcher,
                    )
                    &&& captures_of(pats[lx.matcher], rest_at(text, lx.at)) == Some(lx.groups)
                    &&& groups_well_formed(lx.groups, rest_at(text, lx.at))
                    &&& whole_span(lx.groups).1 > 0
                    &&& k + 1 < steps.len() ==> steps[k + 1].at == lx.at + whole_span(
                        lx.groups,
                    ).1
                    &&& k + 1 == steps.len() ==> stop == lx.at + whole_span(lx.groups).1
                }
        }),
    decreases text.len() - pos,
{
    if pos < text.len() {
        let hay = rest_at(text, pos);
        lemma_winner_fires(pats, priority, hay, pats.len() as int);
        if let Some(k) = winner(pats, priority, hay, pats.len() as int) {
            let g = captures_of(pats[k], hay).unwrap();
            let end = whole_span(g).1;
            if groups_well_formed(g, hay) && end != 0 {
                lemma_scan_steps(pats, priority, text, pos + end);
            }
        }
    }
}

/// Under `First`, the winner is the earliest pattern that fires.
proof fn lemma_first_winner(pats: Seq<Seq<char>>, hay: Seq<u8>, n: int)
    ensures
        winner(pats, MatcherPriority::First, hay, n) matches Some(k) ==> captures_of(
            pats[k],
            hay,
        ) is Some && forall|j: int| 0 <= j < k ==> captures_of(pats[j], hay) is None,
        winner(pats, MatcherPriority::First, hay, n) is None ==> forall|j: int|
            0 <= j < n ==> captures_of(pats[j], hay) is None,
    decreases n,
{
    if n > 0 {
        lemma_first_winner(pats, hay, n - 1);
        lemma_winner_fires(pats, MatcherPriority::First, hay, n - 1);
    }
}

/// Under `Longest` the winner's match is at least as long as any other,
/// and strictly longer than that of every earlier pattern that fires; under
/// `Shortest` the same with the order reversed.
proof fn lemma_extreme_winner(pats: Seq<Seq<char>>, priority: MatcherPriority, hay: Seq<u8>, n: int)
    requires
        priority != MatcherPriority::First,
    ensures
        winner(pats, priority, hay, n) matches Some(k) ==> {
            let best = match_len(captures_of(pats[k], hay).unwrap());
            &&& captures_of(pats[k], hay) is Some
            &&& forall|j: int|
                0 <= j < n && (#[trigger] captures_of(pats[j], hay)) is Some ==> {
                    let other = match_len(captures_of(pats[j], hay).unwrap());
                    &&& priority == MatcherPriority::Longest ==> other <= best
                    &&& priority == MatcherPriority::Shortest ==> other >= best
                    &&& j < k && priority == MatcherPriority::Longest ==> other < best
                    &&& j < k && priority == MatcherPriority::Shortest ==> other > best
                }
        },
        winner(pats, priority, hay, n) is None ==> forall|j: int|
            0 <= j < n ==> captures_of(pats[j], hay) is None,
    decreases n,
{
    if n > 0 {
        lemma_extreme_winner(pats, priority, hay, n - 1);
        lemma_winner_fires(pats, priority, hay, n - 1);
    }
}

/// Under `First`, each token of a scan comes from the earliest registered
/// matcher whose pattern fires at the token's position.
pub proof fn lemma_first_priority(pats: Seq<Seq<char>>, text: Seq<u8>)
    ensures
        forall|k: int|
            0 <= k < scan(pats, MatcherPriority::First, text, 0).0.len() ==> {
                let lx = #[trigger] scan(pats, MatcherPriority::First, text, 0).0[k];
                &&& captures_of(pats[lx.matcher], rest_at(text, lx.at)) is Some
                &&& forall|j: int|
                    0 <= j < lx.matcher ==> captures_of(pats[j], rest_at(text, lx.at)) is None
            },
{
    lemma_scan_steps(pats, MatcherPriority::First, text, 0);
    let steps = scan(pats, MatcherPriority::First, text, 0).0;
    assert forall|k: int| 0 <= k < steps.len() implies {
        let lx = #[trigger] steps[k];
        &&& captures_of(pats[lx.matcher], rest_at(text, lx.at)) is Some
        &&& forall|j: int|
            0 <= j < lx.matcher ==> captures_of(pats[j], rest_at(text, lx.at)) is None
    } by {
        lemma_first_winner(pats, rest_at(text, steps[k].at), pats.len() as int);
    }
}

/// Under `Longest` (`Shortest`), the match of each token of a scan is the
/// longest (shortest) among those of all matchers that fire at its
/// position, and the earliest such matcher gives the token.
pub proof fn lemma_extreme_priority(pats: Seq<Seq<char>>, priority: MatcherPriority, text: Seq<u8>)
    requires
        priority != MatcherPriority::First,
    ensures
        forall|k: int|
            0 <= k < scan(pats, priority, text, 0).0.len() ==> {
                let lx = #[trigger] scan(pats, priority, text, 0).0[k];
                let hay = rest_at(text, lx.at);
                forall|j: int|
                    0 <= j < pats.len() && (#[trigger] captures_of(pats[j], hay)) is Some ==> {
                        let other = match_len(captures_of(pats[j], hay).unwrap());
                        &&& priority == MatcherPriority::Longest ==> other <= match_len(lx.groups)
                        &&& priority == MatcherPriority::Shortest ==> other >= match_len(
                            lx.groups,
                        )
                        &&& j < lx.matcher && priority == MatcherPriority::Longest ==> other
                            < match_len(lx.groups)
                        &&& j < lx.matcher && priority == MatcherPriority::Shortest ==> other
                            > match_len(lx.groups)
                    }
            },
{
    lemma_scan_steps(pats, priority, text, 0);
    let steps = scan(pats, priority, text, 0).0;
    assert forall|k: int| 0 <= k < steps.len() implies {
        let lx = #[trigger] steps[k];
        let hay = rest_at(text, lx.at);
        forall|j: int|
            0 <= j < pats.len() && (#[trigger] captures_of(pats[j], hay)) is Some ==> {
                let other = match_len(captures_of(pats[j], hay).unwrap());
                &&& priority == MatcherPriority::Longest ==> other <= match_len(lx.groups)
                &&& priority == MatcherPriority::Shortest ==> other >= match_len(lx.groups)
                &&& j < lx.matcher && priority == MatcherPriority::Longest ==> other < match_len(
                    lx.groups,
                )
                &&& j < lx.matcher && priority == MatcherPriority::Shortest ==> other
                    > match_len(lx.groups)
            }
    } by {
        lemma_extreme_winner(pats, priority, rest_at(text, steps[k].at), pats.len() as int);
    }
}

/// The whole match of every step of a scan is present and lies inside the
/// text, so the first part of every token is a contiguous piece of the input.
pub proof fn lemma_whole_match_in_text(
    pats: Seq<Seq<char>>,
    priority: MatcherPriority,
    text: Seq<u8>,
)
    ensures
        forall|k: int|
            0 <= k < scan(pats, priority, text, 0).0.len() ==> {
                let lx = #[trigger] scan(pats, priority, text, 0).0[k];
                &&& lx.groups.len() > 0
                &&& lx.groups[0] is Some
                &&& 0 <= lx.at + whole_span(lx.groups).0
                &&& lx.at + whole_span(lx.groups).0 <= lx.at + whole_span(lx.groups).1
                &&& lx.at + whole_span(lx.groups).1 <= text.len()
            },
{
    lemma_scan_steps(pats, priority, text, 0);
    let steps = scan(pats, priority, text, 0).0;
    assert forall|k: int| 0 <= k < steps.len() implies {
        let lx = #[trigger] steps[k];
        &&& lx.groups.len() > 0
        &&& lx.groups[0] is Some
        &&& 0 <= lx.at + whole_span(lx.groups).0
        &&& lx.at + whole_span(lx.groups).0 <= lx.at + whole_span(lx.groups).1
        &&& lx.at + whole_span(lx.groups).1 <= text.len()
    } by {
        let lx = steps[k];
        assert(lx.groups[0] is Some);
        assert(rest_at(text, lx.at).len() == text.len() - lx.at);
    }
}

/// The bytes of the whole matches of `steps`, one after another.
pub open spec fn joined(steps: Seq<Lexeme>, text: Seq<u8>) -> Seq<u8>
    decreases steps.len(),
{
    if steps.len() == 0 {
        seq![]
    } else {
        let lx = steps[0];
        text.subrange(lx.at + whole_span(lx.groups).0, lx.at + whole_span(lx.groups).1) + joined(
            steps.drop_first(),
            text,
        )
    }
}

proof fn lemma_joined_from(pats: Seq<Seq<char>>, priority: MatcherPriority, text: Seq<u8>, pos: int)
    requires
        0 <= pos <= text.len(),
        forall|k: int|
            0 <= k < scan(pats, priority, text, pos).0.len() ==> whole_span(
                (#[trigger] scan(pats, priority, text, pos).0[k]).groups,
            ).0 == 0,
    ensures
        joined(scan(pats, priority, text, pos).0, text) + rest_at(
            text,
            scan(pats, priority, text, pos).1,
        ) == rest_at(text, pos),
    decreases text.len() - pos,
{
    let (steps, stop) = scan(pats, priority, text, pos);
    lemma_scan_steps(pats, priority, text, pos);
    if steps.len() == 0 {
        assert(joined(steps, text) + rest_at(text, stop) =~= rest_at(text, pos));
    } else {
        let end = whole_span(steps[0].groups).1;
        let next = scan(pats, priority, text, pos + end);
        assert(steps.drop_first() =~= next.0);
        assert forall|k: int| 0 <= k < next.0.len() implies whole_span(
            (#[trigger] next.0[k]).groups,
        ).0 == 0 by {
            assert(next.0[k] == steps[k + 1]);
        }
        lemma_joined_from(pats, priority, text, pos + end);
        assert(rest_at(text, pos) =~= text.subrange(pos, pos + end) + rest_at(text, pos + end));
    }
}

proof fn lemma_parts_joined(
    tokens: Seq<Token>,
    steps: Seq<Lexeme>,
    types: Seq<TokenTypeId>,
    text: Seq<u8>,
)
    requires
        tokens.len() == steps.len(),
        forall|k: int|
            0 <= k < steps.len() ==> token_agrees(#[trigger] tokens[k], steps[k], types, text),
        forall|k: int|
            0 <= k < steps.len() ==> (#[trigger] steps[k]).groups.len() > 0 && steps[k].groups[0] is Some,
    ensures
        joined_parts(tokens) == joined(steps, text),
    decreases tokens.len(),
{
    if tokens.len() > 0 {
        let t = tokens[0];
        let lx = steps[0];
        assert(token_agrees(t, lx, types, text));
        assert(lx.groups[0] is Some);
        assert(whole_text(t) == text.subrange(
            lx.at + whole_span(lx.groups).0,
            lx.at + whole_span(lx.groups).1,
        ));
        let (rt, rs) = (tokens.drop_first(), steps.drop_first());
        assert forall|k: int| 0 <= k < rs.len() implies token_agrees(
            #[trigger] rt[k],
            rs[k],
            types,
            text,
        ) && rs[k].groups.len() > 0 && rs[k].groups[0] is Some by {
            assert(rt[k] == tokens[k + 1] && rs[k] == steps[k + 1]);
        }
        lemma_parts_joined(rt, rs, types, text);
    }
}

/// The scan only cuts the text: when every winning match starts at the
/// cursor, the whole matches followed by the unscanned rest give back the
/// text exactly.
pub proof fn lemma_round_trip(pats: Seq<Seq<char>>, priority: MatcherPriority, text: Seq<u8>)
    requires
        forall|k: int|
            0 <= k < scan(pats, priority, text, 0).0.len() ==> whole_span(
                (#[trigger] scan(pats, priority, text, 0).0[k]).groups,
            ).0 == 0,
    ensures
        joined(scan(pats, priority, text, 0).0, text) + rest_at(
            text,
            scan(pats, priority, text, 0).1,
        ) == text,
{
    lemma_joined_from(pats, priority, text, 0);
    assert(rest_at(text, 0) =~= text);
}

/// An ordered list of matchers and the policy that decides between them.
pub struct Tokenizer {
    matchers: Vec<Matcher>,
    priority: MatcherPriority,
}

impl Tokenizer {
    /// The pattern texts of the matchers, in registration order.
    pub closed spec fn patterns(&self) -> Seq<Seq<char>> {
        self.matchers@.map_values(|m: Matcher| m.pattern_text())
    }

    /// The token types of the matchers, in registration order.
    pub closed spec fn types(&self) -> Seq<TokenTypeId> {
        self.matchers@.map_values(|m: Matcher| m.token_type())
    }

    pub closed spec fn priority(&self) -> MatcherPriority {
        self.priority
    }

    /// A tokenizer without matchers.
    pub fn new(priority: MatcherPriority) -> (t: Tokenizer)
        ensures
            t.patterns() == Seq::<Seq<char>>::empty(),
            t.types() == Seq::<TokenTypeId>::empty(),
            t.priority() == priority,
    {
        let t = Tokenizer { matchers: Vec::new(), priority: priority };
        assert(t.patterns() =~= Seq::<Seq<char>>::empty());
        assert(t.types() =~= Seq::<TokenTypeId>::empty());
        t
    }

    /// A tokenizer with a matcher for each (pattern, type) pair, in order.
    /// Fails on the first pattern that does not compile, and only then.
    pub fn make(priority: MatcherPriority, matchers: Vec<(&str, TokenTypeId)>) -> (r: Result<
        Tokenizer,
        InvalidPattern,
    >)
        ensures
            r is Ok <==> forall|i: int| 0 <= i < matchers@.len() ==> pattern_compiles(
                (#[trigger] matchers@[i]).0@,
            ),
            r matches Ok(t) ==> {
                &&& t.patterns() == matchers@.map_values(|m: (&str, TokenTypeId)| m.0@)
                &&& t.types() == matchers@.map_values(|m: (&str, TokenTypeId)| m.1)
                &&& t.priority() == priority
            },
            r matches Err(e) ==> exists|i: int|
                0 <= i < matchers@.len() && !pattern_compiles((#[trigger] matchers@[i]).0@)
                    && e.pattern@ == matchers@[i].0@ && forall|j: int|
                    0 <= j < i ==> pattern_compiles((#[trigger] matchers@[j]).0@),
    {
        let mut tokenizer = Tokenizer::new(priority);
        let mut i: usize = 0;
        while i < matchers.len()
            invariant
                i <= matchers@.len(),
                tokenizer.priority() == priority,
                tokenizer.patterns() == matchers@.subrange(0, i as int).map_values(
                    |m: (&str, TokenTypeId)| m.0@,
                ),
                tokenizer.types() == matchers@.subrange(0, i as int).map_values(
                    |m: (&str, TokenTypeId)| m.1,
                ),
                forall|j: int| 0 <= j < i ==> pattern_compiles((#[trigger] matchers@[j]).0@),
            decreases matchers@.len() - i,
        {
            let (pattern, type_id) = matchers[i];
            let matcher = Matcher::new(pattern, type_id)?;
            tokenizer.add_matcher(matcher);
            i += 1;
            assert(tokenizer.patterns() =~= matchers@.subrange(0, i as int).map_values(
                |m: (&str, TokenTypeId)| m.0@,
            ));
            assert(tokenizer.types() =~= matchers@.subrange(0, i as int).map_values(
                |m: (&str, TokenTypeId)| m.1,
            ));
        }
        assert(matchers@.subrange(0, i as int) =~= matchers@);
        Ok(tokenizer)
    }

    /// Appends a matcher; it is tried after all those added before it.
    pub fn add_matcher(&mut self, matcher: Matcher)
        ensures
            final(self).patterns() == old(self).patterns().push(matcher.pattern_text()),
            final(self).types() == old(self).types().push(matcher.token_type()),
            final(self).priority() == old(self).priority(),
    {
        self.matchers.push(matcher);
        assert(self.patterns() =~= old(self).patterns().push(matcher.pattern_text()));
        assert(self.types() =~= old(self).types().push(matcher.token_type()));
    }

    /// Tries the matchers in order on `hay` and returns the winner under the
    /// priority, with its group spans.
    fn select(&self, hay: &str) -> (r: Option<(usize, Vec<Option<(usize, usize)>>)>)
        ensures
            match winner(self.patterns(), self.priority(), hay.spec_bytes(), self.patterns().len() as int) {
                None => r is None,
                Some(k) => r matches Some(found) && found.0 == k && found.1@ == captures_of(
                    self.patterns()[k],
                    hay.spec_bytes(),
                ).unwrap() && groups_well_formed(found.1@, hay.spec_bytes()),
            },
    {
        let ghost pats = self.patterns();
        let ghost bytes = hay.spec_bytes();
        let n = self.matchers.len();
        let mut best: Option<(usize, Vec<Option<(usize, usize)>>)> = None;
        let mut i: usize = 0;
        while i < n
            invariant_except_break
                i <= n,
                match winner(pats, self.priority(), bytes, i as int) {
                    None => best is None,
                    Some(k) => best matches Some(found) && found.0 == k && found.1@
                        == captures_of(pats[k], bytes).unwrap() && groups_well_formed(
                        found.1@,
                        bytes,
                    ),
                },
            invariant
                n == pats.len(),
                pats == self.patterns(),
                bytes == hay.spec_bytes(),
            ensures
                match winner(pats, self.priority(), bytes, n as int) {
                    None => best is None,
                    Some(k) => best matches Some(found) && found.0 == k && found.1@
                        == captures_of(pats[k], bytes).unwrap() && groups_well_formed(
                        found.1@,
                        bytes,
                    ),
                },
            decreases n - i,
        {
            proof {
                lemma_winner_fires(pats, self.priority(), bytes, i as int);
            }
            let found = search(&self.matchers[i], hay);
            assert(self.matchers@[i as int].pattern_text() == pats[i as int]);
            match found {
                None => {},
                Some(groups) => {
                    match best {
                        None => {
                            best = Some((i, groups));
                            if let MatcherPriority::First = self.priority {
                                proof {
                                    lemma_first_settles(pats, bytes, i + 1, n as int);
                                }
                                break;
                            }
                        },
                        Some((k, held)) => {
                            let held_len = whole_len(&held, Ghost(bytes));
                            let next_len = whole_len(&groups, Ghost(bytes));
                            if replaces(self.priority, held_len, next_len) {
                                best = Some((i, groups));
                            } else {
                                best = Some((k, held));
                            }
                        },
                    }
                },
            }
            i += 1;
        }
        best
    }

    /// Scans `input` left to right and returns the tokens together with the
    /// part of the input where the scan stopped: empty when all of it was
    /// consumed, or the rest where no matcher fired or the winning match
    /// would not have moved the cursor.
    pub fn tokenize_with_rest<'a>(&self, input: &'a str) -> (r: (Vec<Token<'a>>, &'a str))
        ensures
            ({
                let (steps, stop) = scan(self.patterns(), self.priority(), input.spec_bytes(), 0);
                &&& r.0@.len() == steps.len()
                &&& forall|k: int|
                    0 <= k < steps.len() ==> token_agrees(
                        #[trigger] r.0@[k],
                        steps[k],
                        self.types(),
                        input.spec_bytes(),
                    )
                &&& 0 <= stop <= input.spec_bytes().len()
                &&& r.1.spec_bytes() == input.spec_bytes().subrange(
                    stop,
                    input.spec_bytes().len() as int,
                )
                &&& r.1.spec_bytes().len() > 0 ==> stops_on(
                    self.patterns(),
                    self.priority(),
                    r.1.spec_bytes(),
                )
                &&& (forall|k: int|
                    0 <= k < steps.len() ==> whole_span((#[trigger] steps[k]).groups).0 == 0)
                    ==> joined_parts(r.0@) + r.1.spec_bytes() == input.spec_bytes()
            }),
    {
        let ghost text = input.spec_bytes();
        let ghost pats = self.patterns();
        let ghost types = self.types();
        let ghost whole = scan(pats, self.priority(), text, 0);
        let mut current: &'a str = input;
        let mut result: Vec<Token<'a>> = Vec::new();
        let ghost mut pos: int = 0;
        let ghost mut done: Seq<Lexeme> = seq![];
        assert(text.subrange(0, text.len() as int) =~= text);
        while !current.is_empty()
            invariant
                0 <= pos <= text.len(),
                text == input.spec_bytes(),
                pats == self.patterns(),
                types == self.types(),
                types.len() == pats.len(),
                whole == scan(pats, self.priority(), text, 0),
                current.spec_bytes() == text.subrange(pos, text.len() as int),
                whole.0 == done + scan(pats, self.priority(), text, pos).0,
                whole.1 == scan(pats, self.priority(), text, pos).1,
                result@.len() == done.len(),
                forall|k: int|
                    0 <= k < done.len() ==> token_agrees(
                        #[trigger] result@[k],
                        done[k],
                        types,
                        text,
                    ),
            ensures
                scan(pats, self.priority(), text, pos).0 == Seq::<Lexeme>::empty(),
                scan(pats, self.priority(), text, pos).1 == pos,
                current.spec_bytes().len() > 0 ==> stops_on(
                    pats,
                    self.priority(),
                    current.spec_bytes(),
                ),
            decreases text.len() - pos,
        {
            let ghost hay = current.spec_bytes();
            let found = self.select(current);
            proof {
                lemma_winner_fires(pats, self.priority(), hay, pats.len() as int);
            }
            match found {
                None => {
                    break;
                },
                Some((k, groups)) => {
                    let (_, end) = groups[0].unwrap();
                    if end == 0 {
                        break;
                    }
                    let parts = group_texts(current, &groups);
                    let token = Token { typ: self.matchers[k].to_type, parts };
                    let ghost step = Lexeme { matcher: k as int, at: pos, groups: groups@ };
                    assert(token_agrees(token, step, types, text)) by {
                        assert forall|j: int| 0 <= j < groups@.len() implies match #[trigger] groups@[j] {
                            None => token.parts@[j] is None,
                            Some(sp) => token.parts@[j] is Some && token.parts@[j].unwrap().spec_bytes()
                                == text.subrange(pos + sp.0, pos + sp.1),
                        } by {
                            if let Some(sp) = groups@[j] {
                                assert(hay.subrange(sp.0 as int, sp.1 as int) =~= text.subrange(
                                    pos + sp.0,
                                    pos + sp.1,
                                ));
                            }
                        }
                    }
                    result.push(token);
                    proof {
                        encode_utf8_valid_utf8(current@);
                    }
                    let (_, rest) = current.split_at(end);
                    current = rest;
                    proof {
                        assert(current.spec_bytes() =~= text.subrange(pos + end, text.len() as int));
                        done = done.push(step);
                        assert(whole.0 =~= done + scan(pats, self.priority(), text, pos + end).0);
                        pos = pos + end;
                    }
                },
            }
        }
        assert(done + Seq::<Lexeme>::empty() =~= done);
        proof {
            let steps = whole.0;
            if forall|k: int|
                0 <= k < steps.len() ==> whole_span((#[trigger] steps[k]).groups).0 == 0 {
                lemma_round_trip(pats, self.priority(), text);
                lemma_whole_match_in_text(pats, self.priority(), text);
                lemma_parts_joined(result@, steps, types, text);
            }
        }
        (result, current)
    }

    /// The tokens of `input`, left to right, up to where the scan stopped.
    /// Where every winning match starts at the cursor, their whole matches
    /// put together are the input up to where the scan stopped.
    pub fn tokenize<'a>(&self, input: &'a String) -> (r: Vec<Token<'a>>)
        ensures
            ({
                let steps = scan(self.patterns(), self.priority(), encode_utf8(input@), 0).0;
                &&& r@.len() == steps.len()
                &&& forall|k: int|
                    0 <= k < steps.len() ==> token_agrees(
                        #[trigger] r@[k],
                        steps[k],
                        self.types(),
                        encode_utf8(input@),
                    )
                &&& (forall|k: int|
                    0 <= k < steps.len() ==> whole_span((#[trigger] steps[k]).groups).0 == 0)
                    ==> joined_parts(r@) == encode_utf8(input@).subrange(
                    0,
                    joined_parts(r@).len() as int,
                )
            }),
    {
        let (tokens, rest) = self.tokenize_with_rest(input.as_str());
        proof {
            let text = encode_utf8(input@);
            let n = joined_parts(tokens@).len() as int;
            if joined_parts(tokens@) + rest.spec_bytes() == text {
                assert(text.subrange(0, n) =~= joined_parts(tokens@));
            }
        }
        tokens
    }
}

} // verus!
