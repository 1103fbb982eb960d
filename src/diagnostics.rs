use vstd::prelude::*;
use vstd::string::StringExecFns;
use crate::grammar::chars_of;

verus! {

/// The labels of the grammar's named rules. A failed attempt is reported
/// under the innermost named rule that was being matched; a match is
/// recorded as a token that carries its rule.
#[derive(Debug, Clone, Copy, PartialEq, Eq, Structural)]
pub enum Rule {
    Repeat,
    Sequence,
    Decimal,
    DecimalList,
    Voltage,
    Current,
    Temperature,
    Humidity,
    Pressure,
    Custom,
    Sun,
    Rssi,
    Windspeed,
    Location,
    Count,
    Zombie,
    Comment,
    CommentContent,
    NodeNameContent,
    Path,
    Eoi,
    DataField,
    Data,
    NodeName,
    Packet,
}

/// The name under which a rule is reported.
pub open spec fn rule_name(r: Rule) -> Seq<char> {
    match r {
        Rule::Repeat => "repeat"@,
        Rule::Sequence => "sequence"@,
        Rule::Decimal => "decimal"@,
        Rule::DecimalList => "decimal_list"@,
        Rule::Voltage => "voltage"@,
        Rule::Current => "current"@,
        Rule::Temperature => "temperature"@,
        Rule::Humidity => "humidity"@,
        Rule::Pressure => "pressure"@,
        Rule::Custom => "custom"@,
        Rule::Sun => "sun"@,
        Rule::Rssi => "rssi"@,
        Rule::Windspeed => "windspeed"@,
        Rule::Location => "location"@,
        Rule::Count => "count"@,
        Rule::Zombie => "zombie"@,
        Rule::Comment => "comment"@,
        Rule::CommentContent => "comment_content"@,
        Rule::NodeNameContent => "node_name_content"@,
        Rule::Path => "path"@,
        Rule::Eoi => "eoi"@,
        Rule::DataField => "data_field"@,
        Rule::Data => "data"@,
        Rule::NodeName => "node_name"@,
        Rule::Packet => "packet"@,
    }
}

impl Rule {
    /// The rule's name, as `rule_name` gives it.
    pub fn name(&self) -> (r: &'static str)
        ensures
            r@ == rule_name(*self),
    {
        match self {
            Rule::Repeat => "repeat",
            Rule::Sequence => "sequence",
            Rule::Decimal => "decimal",
            Rule::DecimalList => "decimal_list",
            Rule::Voltage => "voltage",
            Rule::Current => "current",
            Rule::Temperature => "temperature",
            Rule::Humidity => "humidity",
            Rule::Pressure => "pressure",
            Rule::Custom => "custom",
            Rule::Sun => "sun",
            Rule::Rssi => "rssi",
            Rule::Windspeed => "windspeed",
            Rule::Location => "location",
            Rule::Count => "count",
            Rule::Zombie => "zombie",
            Rule::Comment => "comment",
            Rule::CommentContent => "comment_content",
            Rule::NodeNameContent => "node_name_content",
            Rule::Path => "path",
            Rule::Eoi => "eoi",
            Rule::DataField => "data_field",
            Rule::Data => "data",
            Rule::NodeName => "node_name",
            Rule::Packet => "packet",
        }
    }
}

/// One failed attempt: the rule `rule` could not go on at byte offset `pos`.
pub struct Miss {
    pub pos: int,
    pub rule: Rule,
}

/// What is known of the failed attempts so far: the furthest offset reached
/// and the distinct rules that failed there, in the order they first failed.
pub struct Diag {
    pub pos: int,
    pub rules: Seq<Rule>,
}

/// The state before any attempt has failed.
pub open spec fn diag_start() -> Diag {
    Diag { pos: 0, rules: Seq::empty() }
}

/// Takes one failed attempt into account: a further one replaces what was
/// known, one at the same offset adds its rule if it is new, an earlier one
/// changes nothing.
pub open spec fn absorb(d: Diag, m: Miss) -> Diag {
    if m.pos > d.pos {
        Diag { pos: m.pos, rules: seq![m.rule] }
    } else if m.pos == d.pos && !d.rules.contains(m.rule) {
        Diag { pos: d.pos, rules: d.rules.push(m.rule) }
    } else {
        d
    }
}

/// Takes the failed attempts `ms` into account, first to last.
pub open spec fn absorb_all(d: Diag, ms: Seq<Miss>) -> Diag
    decreases ms.len(),
{
    if ms.len() == 0 {
        d
    } else {
        absorb(absorb_all(d, ms.drop_last()), ms.last())
    }
}

/// The diagnosis of a whole run from its failed attempts.
pub open spec fn diagnose(ms: Seq<Miss>) -> Diag {
    absorb_all(diag_start(), ms)
}

pub proof fn lemma_absorb_all_concat(d: Diag, a: Seq<Miss>, b: Seq<Miss>)
    ensures
        absorb_all(d, a + b) == absorb_all(absorb_all(d, a), b),
    decreases b.len(),
{
    if b.len() == 0 {
        assert(a + b =~= a);
    } else {
        assert((a + b).drop_last() =~= a + b.drop_last());
        lemma_absorb_all_concat(d, a, b.drop_last());
    }
}

pub proof fn lemma_absorb_all_one(d: Diag, m: Miss)
    ensures
        absorb_all(d, seq![m]) == absorb(d, m),
{
    assert(seq![m].drop_last() =~= Seq::<Miss>::empty());
    assert(absorb_all(d, Seq::<Miss>::empty()) == d);
    assert(seq![m].last() == m);
}

pub proof fn lemma_absorb_all_two(d: Diag, m0: Miss, m1: Miss)
    ensures
        absorb_all(d, seq![m0, m1]) == absorb(absorb(d, m0), m1),
{
    assert(seq![m0, m1].drop_last() =~= seq![m0]);
    lemma_absorb_all_one(d, m0);
}

/// Taking `m` first and then `ms` is taking `seq![m] + ms`.
pub proof fn lemma_absorb_all_cons(d: Diag, m: Miss, ms: Seq<Miss>)
    ensures
        absorb_all(d, seq![m] + ms) == absorb_all(absorb(d, m), ms),
{
    lemma_absorb_all_concat(d, seq![m], ms);
    lemma_absorb_all_one(d, m);
}

/// The diagnosis is the furthest offset at which an attempt failed, with each
/// rule that failed there once and no other.
pub proof fn lemma_diagnose_furthest(ms: Seq<Miss>)
    requires
        forall|j: int| 0 <= j < ms.len() ==> #[trigger] ms[j].pos >= 0,
    ensures
        forall|j: int| 0 <= j < ms.len() ==> #[trigger] ms[j].pos <= diagnose(ms).pos,
        ms.len() > 0 ==> exists|j: int| 0 <= j < ms.len() && #[trigger] ms[j].pos == diagnose(ms).pos,
        forall|j: int|
            0 <= j < ms.len() && #[trigger] ms[j].pos == diagnose(ms).pos ==> diagnose(
                ms,
            ).rules.contains(ms[j].rule),
        forall|k: int|
            #![trigger diagnose(ms).rules[k]]
            0 <= k < diagnose(ms).rules.len() ==> exists|j: int|
                0 <= j < ms.len() && #[trigger] ms[j].pos == diagnose(ms).pos && ms[j].rule
                    == diagnose(ms).rules[k],
        diagnose(ms).rules.no_duplicates(),
    decreases ms.len(),
{
    if ms.len() > 0 {
        let init = ms.drop_last();
        let m = ms.last();
        assert forall|j: int| 0 <= j < init.len() implies #[trigger] init[j].pos >= 0 by {
            assert(init[j] == ms[j]);
        }
        lemma_diagnose_furthest(init);
        let d0 = diagnose(init);
        let d = diagnose(ms);
        assert(d == absorb(d0, m));
        assert forall|j: int| 0 <= j < ms.len() implies #[trigger] ms[j].pos <= d.pos by {
            if j < init.len() {
                assert(init[j] == ms[j]);
            }
        }
        assert forall|j: int| 0 <= j < ms.len() && #[trigger] ms[j].pos == d.pos implies d.rules.contains(
            ms[j].rule,
        ) by {
            if j < init.len() {
                assert(init[j] == ms[j]);
                if m.pos == d0.pos && !d0.rules.contains(m.rule) {
                    assert(d0.rules.contains(ms[j].rule));
                    let w = choose|w: int| 0 <= w < d0.rules.len() && d0.rules[w] == ms[j].rule;
                    assert(d.rules[w] == ms[j].rule);
                }
            } else {
                if m.pos > d0.pos {
                    assert(d.rules[0] == m.rule);
                } else if !d0.rules.contains(m.rule) {
                    assert(d.rules[d0.rules.len() as int] == m.rule);
                }
            }
        }
        assert forall|k: int| #![trigger d.rules[k]] 0 <= k < d.rules.len() implies exists|j: int|
            0 <= j < ms.len() && #[trigger] ms[j].pos == d.pos && ms[j].rule == d.rules[k] by {
            if m.pos > d0.pos {
                assert(ms[ms.len() - 1] == m);
            } else if k < d0.rules.len() {
                let j = choose|j: int|
                    0 <= j < init.len() && #[trigger] init[j].pos == d0.pos && init[j].rule
                        == d0.rules[k];
                assert(ms[j] == init[j]);
            } else {
                assert(ms[ms.len() - 1] == m);
            }
        }
        if init.len() > 0 && m.pos < d.pos {
            let j = choose|j: int| 0 <= j < init.len() && #[trigger] init[j].pos == d0.pos;
            assert(ms[j] == init[j]);
        }
        assert(ms[ms.len() - 1] == m);
    }
}

/// The failed attempts of a parse, kept as `diagnose` describes them.
pub struct Failures {
    pub position: usize,
    pub expected: Vec<Rule>,
}

impl View for Failures {
    type V = Diag;

    open spec fn view(&self) -> Diag {
        Diag { pos: self.position as int, rules: self.expected@ }
    }
}

impl Failures {
    /// Nothing has failed yet.
    pub fn new() -> (r: Failures)
        ensures
            r@ == diag_start(),
    {
        Failures { position: 0, expected: Vec::new() }
    }

    /// Records that `rule` failed at offset `pos`.
    pub fn record(&mut self, pos: usize, rule: Rule)
        ensures
            final(self)@ == absorb(old(self)@, Miss { pos: pos as int, rule }),
    {
        if pos > self.position {
            self.position = pos;
            self.expected = vec![rule];
            assert(self.expected@ =~= seq![rule]);
        } else if pos == self.position {
            let mut k: usize = 0;
            let mut found = false;
            while k < self.expected.len()
                invariant
                    k <= self.expected@.len(),
                    found == exists|j: int| 0 <= j < k && self.expected@[j] == rule,
                decreases self.expected@.len() - k,
            {
                if self.expected[k] == rule {
                    found = true;
                }
                k = k + 1;
            }
            if !found {
                self.expected.push(rule);
            }
        }
    }
}

/// Relies on `String::from_utf8`: ASCII bytes are valid UTF-8, and each
/// stands for the character of the same code.
#[verifier::external_body]
pub(crate) fn ascii_string(b: Vec<u8>) -> (r: String)
    requires
        forall|j: int| 0 <= j < b@.len() ==> b@[j] < 128,
    ensures
        r@ == chars_of(b@),
{
    match String::from_utf8(b) {
        Ok(s) => s,
        Err(_) => String::new(),
    }
}

/// The decimal digits of `n`, most significant first.
pub open spec fn decimal_digits(n: nat) -> Seq<u8>
    decreases n,
{
    if n < 10 {
        seq![(48 + n) as u8]
    } else {
        decimal_digits(n / 10).push((48 + n % 10) as u8)
    }
}

fn digits(n: usize) -> (r: Vec<u8>)
    ensures
        r@ == decimal_digits(n as nat),
        forall|j: int| 0 <= j < r@.len() ==> r@[j] < 128,
    decreases n,
{
    if n < 10 {
        let v = vec![48 + n as u8];
        assert(v@ =~= decimal_digits(n as nat));
        v
    } else {
        let mut v = digits(n / 10);
        v.push(48 + (n % 10) as u8);
        v
    }
}

/// A failed parse: the furthest byte offset that was reached, and the names
/// of the rules that failed there, each once, in the order they first failed.
#[derive(Debug, Clone, PartialEq)]
pub struct ParserError {
    pub position: usize,
    pub expected: Vec<String>,
}

/// The names of `rules`, one for each.
pub open spec fn rule_names(rules: Seq<Rule>) -> Seq<Seq<char>> {
    rules.map_values(|r: Rule| rule_name(r))
}

/// The views of `v`'s strings.
pub open spec fn strings_view(v: Seq<String>) -> Seq<Seq<char>> {
    v.map_values(|x: String| x@)
}

impl ParserError {
    /// What kind of error this is.
    pub fn description(&self) -> (r: String)
        ensures
            r@ == "Parser error"@,
    {
        String::from_str("Parser error")
    }

    /// The error as a sentence that gives its position.
    pub fn message(&self) -> (r: String)
        ensures
            r@ == "Parser error at position "@ + chars_of(decimal_digits(self.position as nat)),
    {
        let mut r = String::from_str("Parser error at position ");
        let n = ascii_string(digits(self.position));
        r.append(n.as_str());
        r
    }

    /// The error that the failed attempts recorded in `parser` describe.
    pub fn from_parser(parser: &Failures) -> (r: ParserError)
        ensures
            r.position == parser.position,
            strings_view(r.expected@) == rule_names(parser.expected@),
    {
        let mut expected: Vec<String> = Vec::new();
        let mut k: usize = 0;
        while k < parser.expected.len()
            invariant
                k <= parser.expected@.len(),
                expected@.len() == k,
                forall|j: int| 0 <= j < k ==> #[trigger] expected@[j]@ == rule_name(parser.expected@[j]),
            decreases parser.expected@.len() - k,
        {
            let name = parser.expected[k].name();
            expected.push(String::from_str(name));
            k = k + 1;
        }
        assert(strings_view(expected@) =~= rule_names(parser.expected@));
        ParserError { position: parser.position, expected }
    }
}

} // verus!
