//! How the lines of a set of domains are read, and that the set of a rule holds
//! the names that the rule gives.
use vstd::prelude::*;
use crate::config::dns::{DnsQueryType, DnsRuleConfig};
use crate::dns::resolver;
use crate::dns::resolver::{CompiledDnsRule, UpstreamPlan};
use crate::text;

verus! {

/// Whether a name is `d`, or ends with a dot and `d`.
pub open spec fn under(name: Seq<char>, d: Seq<char>) -> bool {
    name == d || exists|front: Seq<char>| name == #[trigger] (front + (seq!['.'] + d))
}

/// Whether a name holds `d` somewhere.
pub open spec fn holds(name: Seq<char>, d: Seq<char>) -> bool {
    exists|front: Seq<char>, back: Seq<char>| name == #[trigger] (front + d + back)
}

/// Whether a name is among those of a line: `domain:` gives one name,
/// `domain-suffix:` a name and all below it, `domain-keyword:` all names with
/// the word in them.
pub open spec fn in_line(line: Seq<char>, name: Seq<char>) -> bool {
    ||| exists|d: Seq<char>| line == #[trigger] ("domain: "@ + d) && name == d
    ||| exists|d: Seq<char>| line == #[trigger] ("domain-suffix: "@ + d) && under(name, d)
    ||| exists|d: Seq<char>| line == #[trigger] ("domain-keyword: "@ + d) && holds(name, d)
}

/// Whether a name is in the set that a text describes, line by line.
pub open spec fn in_set(set: Seq<char>, name: Seq<char>) -> bool {
    exists|i: int|
        0 <= i < text::parts(set, '\n').len() && #[trigger] in_line(
            text::parts(set, '\n')[i],
            name,
        )
}

/// Whether no text of a list has more than one line.
pub open spec fn single_lines(v: Seq<String>) -> bool {
    forall|i: int| 0 <= i < v.len() ==> !(#[trigger] v[i])@.contains('\n')
}

/// Whether a name is one that a rule gives.
pub open spec fn named_by(rule: DnsRuleConfig, name: Seq<char>) -> bool {
    ||| exists|i: int| 0 <= i < rule.domain@.len() && name == (#[trigger] rule.domain@[i])@
    ||| exists|i: int|
        0 <= i < rule.domain_suffix@.len() && under(name, (#[trigger] rule.domain_suffix@[i])@)
    ||| exists|i: int|
        0 <= i < rule.domain_keyword@.len() && holds(name, (#[trigger] rule.domain_keyword@[i])@)
}

/// The words before the lines differ.
proof fn lemma_words(d: Seq<char>, e: Seq<char>)
    ensures
        "domain: "@ + d != "domain-suffix: "@ + e,
        "domain: "@ + d != "domain-keyword: "@ + e,
        "domain-suffix: "@ + d != "domain-keyword: "@ + e,
        "domain: "@ + d == "domain: "@ + e ==> d == e,
        "domain-suffix: "@ + d == "domain-suffix: "@ + e ==> d == e,
        "domain-keyword: "@ + d == "domain-keyword: "@ + e ==> d == e,
{
    reveal_strlit("domain: ");
    reveal_strlit("domain-suffix: ");
    reveal_strlit("domain-keyword: ");
    assert(("domain: "@ + d)[6] == ':');
    assert(("domain-suffix: "@ + e)[6] == '-');
    assert(("domain-keyword: "@ + e)[6] == '-');
    assert(("domain-suffix: "@ + d)[7] == 's');
    assert(("domain-keyword: "@ + e)[7] == 'k');
    assert(("domain: "@ + d).skip(8) =~= d);
    assert(("domain: "@ + e).skip(8) =~= e);
    assert(("domain-suffix: "@ + d).skip(15) =~= d);
    assert(("domain-suffix: "@ + e).skip(15) =~= e);
    assert(("domain-keyword: "@ + d).skip(16) =~= d);
    assert(("domain-keyword: "@ + e).skip(16) =~= e);
}

proof fn lemma_in_line(d: Seq<char>, name: Seq<char>)
    ensures
        in_line("domain: "@ + d, name) <==> name == d,
        in_line("domain-suffix: "@ + d, name) <==> under(name, d),
        in_line("domain-keyword: "@ + d, name) <==> holds(name, d),
{
    assert forall|e: Seq<char>|
        "domain: "@ + d != #[trigger] ("domain-suffix: "@ + e) && "domain-keyword: "@ + d != (
        "domain-suffix: "@ + e) && ("domain-suffix: "@ + d == "domain-suffix: "@ + e ==> d
            == e) by {
        lemma_words(d, e);
        lemma_words(e, d);
    }
    assert forall|e: Seq<char>|
        "domain-suffix: "@ + d != #[trigger] ("domain: "@ + e) && "domain-keyword: "@ + d != (
        "domain: "@ + e) && ("domain: "@ + d == "domain: "@ + e ==> d == e) by {
        lemma_words(d, e);
        lemma_words(e, d);
    }
    assert forall|e: Seq<char>|
        "domain: "@ + d != #[trigger] ("domain-keyword: "@ + e) && "domain-suffix: "@ + d != (
        "domain-keyword: "@ + e) && ("domain-keyword: "@ + d == "domain-keyword: "@ + e ==> d
            == e) by {
        lemma_words(d, e);
        lemma_words(e, d);
    }
}

proof fn lemma_one_line(word: Seq<char>, d: Seq<char>)
    requires
        word == "domain: "@ || word == "domain-suffix: "@ || word == "domain-keyword: "@,
        !d.contains('\n'),
    ensures
        !(word + d).contains('\n'),
{
    reveal_strlit("domain: ");
    reveal_strlit("domain-suffix: ");
    reveal_strlit("domain-keyword: ");
    assert forall|i: int| 0 <= i < (word + d).len() implies (word + d)[i] != '\n' by {
        if i >= word.len() {
            assert((word + d)[i] == d[i - word.len()]);
            assert(d.contains(d[i - word.len()]));
        }
    }
}

/// The set of a rule holds exactly the names that equal one of its domains, lie
/// at or below one of its suffixes, or hold one of its keywords; a rule that
/// gives none of these has no set of its own.
pub proof fn law_rule_set_holds_names(
    c: CompiledDnsRule,
    rule: DnsRuleConfig,
    ups: Seq<UpstreamPlan>,
    rulesets: Seq<String>,
    name: Seq<char>,
)
    requires
        resolver::compiled(c, rule, ups, rulesets),
        single_lines(rule.domain@),
        single_lines(rule.domain_suffix@),
        single_lines(rule.domain_keyword@),
    ensures
        c.inline_rules is None <==> rule.domain@.len() == 0 && rule.domain_suffix@.len() == 0
            && rule.domain_keyword@.len() == 0,
        c.inline_rules matches Some(set) ==> (in_set(set@, name) <==> named_by(rule, name)),
        c.inline_rules matches Some(set) ==> forall|i: int|
            0 <= i < rule.domain@.len() ==> text::parts(set@, '\n').contains(
                "domain: "@ + (#[trigger] rule.domain@[i])@,
            ),
        c.inline_rules matches Some(set) ==> forall|i: int|
            0 <= i < rule.domain_suffix@.len() ==> text::parts(set@, '\n').contains(
                "domain-suffix: "@ + (#[trigger] rule.domain_suffix@[i])@,
            ),
        c.inline_rules matches Some(set) ==> forall|i: int|
            0 <= i < rule.domain_keyword@.len() ==> text::parts(set@, '\n').contains(
                "domain-keyword: "@ + (#[trigger] rule.domain_keyword@[i])@,
            ),
{
    let lines = resolver::rule_lines(rule);
    let n = rule.domain@.len() as int;
    let m = rule.domain_suffix@.len() as int;
    let k = rule.domain_keyword@.len() as int;
    assert(lines.len() == n + m + k);
    assert forall|i: int| 0 <= i < n implies lines[i] == "domain: "@ + (
    #[trigger] rule.domain@[i])@ by {
    }
    assert forall|i: int| 0 <= i < m implies lines[n + i] == "domain-suffix: "@ + (
    #[trigger] rule.domain_suffix@[i])@ by {
    }
    assert forall|i: int| 0 <= i < k implies lines[n + m + i] == "domain-keyword: "@ + (
    #[trigger] rule.domain_keyword@[i])@ by {
    }
    assert forall|i: int| 0 <= i < lines.len() implies !(#[trigger] lines[i]).contains('\n') by {
        if i < n {
            assert(lines[i] == "domain: "@ + rule.domain@[i]@);
            lemma_one_line("domain: "@, rule.domain@[i]@);
        } else if i < n + m {
            assert(lines[n + (i - n)] == "domain-suffix: "@ + rule.domain_suffix@[i - n]@);
            lemma_one_line("domain-suffix: "@, rule.domain_suffix@[i - n]@);
        } else {
            assert(lines[n + m + (i - n - m)] == "domain-keyword: "@ + rule.domain_keyword@[i - n
                - m]@);
            lemma_one_line("domain-keyword: "@, rule.domain_keyword@[i - n - m]@);
        }
    }
    if lines.len() > 0 {
        text::law_parts_of_joined(lines, '\n');
        let set = text::joined(lines, '\n');
        assert forall|i: int| 0 <= i < n implies lines.contains(
            "domain: "@ + (#[trigger] rule.domain@[i])@,
        ) by {
            assert(lines[i] == "domain: "@ + rule.domain@[i]@);
        }
        assert forall|i: int| 0 <= i < m implies lines.contains(
            "domain-suffix: "@ + (#[trigger] rule.domain_suffix@[i])@,
        ) by {
            assert(lines[n + i] == "domain-suffix: "@ + rule.domain_suffix@[i]@);
        }
        assert forall|i: int| 0 <= i < k implies lines.contains(
            "domain-keyword: "@ + (#[trigger] rule.domain_keyword@[i])@,
        ) by {
            assert(lines[n + m + i] == "domain-keyword: "@ + rule.domain_keyword@[i]@);
        }
        if in_set(set, name) {
            let i = choose|i: int|
                0 <= i < text::parts(set, '\n').len() && #[trigger] in_line(
                    text::parts(set, '\n')[i],
                    name,
                );
            if i < n {
                lemma_in_line(rule.domain@[i]@, name);
            } else if i < n + m {
                assert(lines[n + (i - n)] == "domain-suffix: "@ + rule.domain_suffix@[i - n]@);
                lemma_in_line(rule.domain_suffix@[i - n]@, name);
            } else {
                assert(lines[n + m + (i - n - m)] == "domain-keyword: "@ + rule.domain_keyword@[i
                    - n - m]@);
                lemma_in_line(rule.domain_keyword@[i - n - m]@, name);
            }
        }
        if exists|i: int| 0 <= i < n && name == (#[trigger] rule.domain@[i])@ {
            let i = choose|i: int| 0 <= i < n && name == (#[trigger] rule.domain@[i])@;
            lemma_in_line(rule.domain@[i]@, name);
            assert(in_line(text::parts(set, '\n')[i], name));
        }
        if exists|i: int| 0 <= i < m && under(name, (#[trigger] rule.domain_suffix@[i])@) {
            let i = choose|i: int| 0 <= i < m && under(name, (#[trigger] rule.domain_suffix@[i])@);
            lemma_in_line(rule.domain_suffix@[i]@, name);
            assert(in_line(text::parts(set, '\n')[n + i], name));
        }
        if exists|i: int| 0 <= i < k && holds(name, (#[trigger] rule.domain_keyword@[i])@) {
            let i = choose|i: int| 0 <= i < k && holds(name, (#[trigger] rule.domain_keyword@[i])@);
            lemma_in_line(rule.domain_keyword@[i]@, name);
            assert(in_line(text::parts(set, '\n')[n + m + i], name));
        }
    }
}

/// Whether one of a rule's query types is the type with this number.
pub open spec fn type_wanted(types: Seq<DnsQueryType>, qtype: u16) -> bool {
    ||| qtype == 1 && types.contains(DnsQueryType::A)
    ||| qtype == 2 && types.contains(DnsQueryType::Ns)
    ||| qtype == 5 && types.contains(DnsQueryType::Cname)
    ||| qtype == 12 && types.contains(DnsQueryType::Ptr)
    ||| qtype == 15 && types.contains(DnsQueryType::Mx)
    ||| qtype == 16 && types.contains(DnsQueryType::Txt)
    ||| qtype == 28 && types.contains(DnsQueryType::Aaaa)
    ||| qtype == 33 && types.contains(DnsQueryType::Srv)
    ||| qtype == 65 && types.contains(DnsQueryType::Https)
}

/// A rule selects a query exactly if each condition that the rule gives holds:
/// the mode, whatever the case of its letters, the inbound, the query type, and
/// one of its sets of domains, of which those that are not loaded do not count.
pub proof fn law_rule_selects_by_its_conditions(
    c: CompiledDnsRule,
    rule: DnsRuleConfig,
    ups: Seq<UpstreamPlan>,
    rulesets: Seq<String>,
    inbound: Seq<char>,
    qtype: u16,
    mode: Seq<char>,
    hit: bool,
)
    requires
        resolver::compiled(c, rule, ups, rulesets),
    ensures
        resolver::selects(c, inbound, qtype, mode, hit) <==> {
            &&& rule.clash_mode matches Some(m) ==> text::lowercase(m@) == text::lowercase(mode)
            &&& rule.inbound@.len() == 0 || exists|i: int|
                0 <= i < rule.inbound@.len() && (#[trigger] rule.inbound@[i])@ == inbound
            &&& rule.query_type@.len() == 0 || type_wanted(rule.query_type@, qtype)
            &&& hit || {
                &&& rule.domain@.len() == 0
                &&& rule.domain_suffix@.len() == 0
                &&& rule.domain_keyword@.len() == 0
                &&& forall|i: int, j: int|
                    0 <= i < rule.ruleset@.len() && 0 <= j < rulesets.len() ==> (
                    #[trigger] rule.ruleset@[i])@ != (#[trigger] rulesets[j])@
            }
        },
        ups.len() > 0 && c.upstream < ups.len() ==> ups[c.upstream as int].tag@ == rule.server@,
        c.disable_cache == rule.disable_cache,
{
    lemma_tags(c, rule, inbound);
    lemma_types(c, rule, qtype);
    lemma_known(rule.ruleset@, rulesets);
    assert(c.rulesets@.len() == resolver::texts(c.rulesets@).len());
    assert(resolver::rule_lines(rule).len() == rule.domain@.len() + rule.domain_suffix@.len()
        + rule.domain_keyword@.len());
    resolver::lemma_last_upstream(ups, ups.len() as int, rule.server@);
}

proof fn lemma_tags(c: CompiledDnsRule, rule: DnsRuleConfig, inbound: Seq<char>)
    requires
        resolver::texts(c.inbound_tags@) == resolver::texts(rule.inbound@),
    ensures
        c.inbound_tags@.len() == rule.inbound@.len(),
        resolver::has_text(c.inbound_tags@, inbound) <==> exists|i: int|
            0 <= i < rule.inbound@.len() && (#[trigger] rule.inbound@[i])@ == inbound,
{
    let a = resolver::texts(c.inbound_tags@);
    let b = resolver::texts(rule.inbound@);
    assert(a.len() == c.inbound_tags@.len() && b.len() == rule.inbound@.len());
    assert forall|i: int| 0 <= i < a.len() implies (#[trigger] c.inbound_tags@[i])@
        == rule.inbound@[i]@ by {
        assert(a[i] == b[i]);
    }
    if resolver::has_text(c.inbound_tags@, inbound) {
        let i = choose|i: int| 0 <= i < a.len() && (#[trigger] c.inbound_tags@[i])@ == inbound;
        assert(rule.inbound@[i]@ == inbound);
    }
    if exists|i: int| 0 <= i < rule.inbound@.len() && (#[trigger] rule.inbound@[i])@ == inbound {
        let i = choose|i: int|
            0 <= i < rule.inbound@.len() && (#[trigger] rule.inbound@[i])@ == inbound;
        assert(c.inbound_tags@[i]@ == inbound);
    }
}

proof fn lemma_types(c: CompiledDnsRule, rule: DnsRuleConfig, qtype: u16)
    requires
        c.query_types@ == rule.query_type@.map_values(
            |t: DnsQueryType| resolver::type_number(t),
        ),
    ensures
        c.query_types@.len() == rule.query_type@.len(),
        c.query_types@.contains(qtype) <==> type_wanted(rule.query_type@, qtype),
{
    let types = rule.query_type@;
    if c.query_types@.contains(qtype) {
        let i = choose|i: int| 0 <= i < c.query_types@.len() && c.query_types@[i] == qtype;
        assert(resolver::type_number(types[i]) == qtype);
        assert(types.contains(types[i]));
    }
    if type_wanted(types, qtype) {
        let t = if qtype == 1 {
            DnsQueryType::A
        } else if qtype == 2 {
            DnsQueryType::Ns
        } else if qtype == 5 {
            DnsQueryType::Cname
        } else if qtype == 12 {
            DnsQueryType::Ptr
        } else if qtype == 15 {
            DnsQueryType::Mx
        } else if qtype == 16 {
            DnsQueryType::Txt
        } else if qtype == 28 {
            DnsQueryType::Aaaa
        } else if qtype == 33 {
            DnsQueryType::Srv
        } else {
            DnsQueryType::Https
        };
        assert(types.contains(t));
        let i = choose|i: int| 0 <= i < types.len() && types[i] == t;
        assert(c.query_types@[i] == resolver::type_number(types[i]));
    }
}

proof fn lemma_known(v: Seq<String>, known: Seq<String>)
    ensures
        resolver::known_among(v, known).len() == 0 <==> forall|i: int, j: int|
            0 <= i < v.len() && 0 <= j < known.len() ==> (#[trigger] v[i])@ != (
            #[trigger] known[j])@,
    decreases v.len(),
{
    if v.len() > 0 {
        let front = v.drop_last();
        lemma_known(front, known);
        if resolver::known_among(v, known).len() == 0 {
            assert forall|i: int, j: int| 0 <= i < v.len() && 0 <= j < known.len() implies (
            #[trigger] v[i])@ != (#[trigger] known[j])@ by {
                if i < front.len() {
                    assert(front[i]@ != known[j]@);
                } else {
                    assert(v[i] == v.last());
                    if v[i]@ == known[j]@ {
                        assert(resolver::has_text(known, v.last()@));
                    }
                }
            }
        } else {
            if resolver::has_text(known, v.last()@) {
                let j = choose|j: int| 0 <= j < known.len() && (#[trigger] known[j])@ == v.last()@;
                assert(v[v.len() - 1]@ == known[j]@);
            } else {
                let (i, j) = choose|i: int, j: int|
                    0 <= i < front.len() && 0 <= j < known.len() && (#[trigger] front[i])@ == (
                    #[trigger] known[j])@;
                assert(v[i]@ == known[j]@);
            }
        }
    }
}

} // verus!
