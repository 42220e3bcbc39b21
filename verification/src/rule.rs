//! Routing rule engine: match a request host against an ordered rule list and
//! yield a [`Policy`] (proxy / direct / block).
//!
//! Rule strings follow the `type:value,policy` shape:
//!
//! ```text
//! domain-suffix:google.com,proxy
//! domain-keyword:github,direct
//! ip-cidr:10.0.0.0/8,direct
//! domain:ads.example.com,block
//! ```

use crate::addr::{cidr_literal, parse_cidr, same_prefix, Cidr, Host, HostModel};
use crate::text::{
    begins, chars_eq, chars_of, contains_chars, debug_text, decimal_text, is_space, last_index,
    law_lower, law_separator_found, law_trim_keeps_tight_text, lower, occurs, push_decimal, push_str,
    quoted, rfind, spells, starts_with, string_of, to_lower, trim, trimmed,
};
use vstd::prelude::*;
use vstd::slice::slice_subrange;

verus! {

/// What to do with a matched request.
#[derive(Debug, Clone, Copy, PartialEq, Eq, Structural)]
pub enum Policy {
    /// Forward through the remote server.
    Proxy,
    /// Connect directly, bypassing the remote server.
    Direct,
    /// Refuse the request.
    Block,
}

impl Policy {
    /// The policy of a keyword.
    pub open spec fn named(s: Seq<char>) -> Option<Policy> {
        if s == "proxy"@ {
            Some(Policy::Proxy)
        } else if s == "direct"@ {
            Some(Policy::Direct)
        } else if s == "block"@ {
            Some(Policy::Block)
        } else {
            None
        }
    }

    /// Parses the policy keyword used in rule strings.
    pub fn parse(s: &str) -> (r: Result<Policy, String>)
        ensures
            match Policy::named(s@) {
                Some(p) => r == Ok::<Policy, String>(p),
                None => r matches Err(e) && e@ == unknown_policy(debug_text(s@)),
            },
    {
        let chars: Vec<char> = chars_of(s);
        match Policy::from_keyword(chars.as_slice()) {
            Some(p) => Ok(p),
            None => {
                let name: String = quoted(s);
                Err(unknown_policy_message(name.as_str()))
            },
        }
    }

    /// The policy of a keyword.
    pub fn from_keyword(s: &[char]) -> (r: Option<Policy>)
        ensures
            r == Policy::named(s@),
    {
        if spells(s, "proxy") {
            Some(Policy::Proxy)
        } else if spells(s, "direct") {
            Some(Policy::Direct)
        } else if spells(s, "block") {
            Some(Policy::Block)
        } else {
            None
        }
    }
}

/// The complaint about a policy keyword, given in quotes.
pub open spec fn unknown_policy(name: Seq<char>) -> Seq<char> {
    "unknown policy: "@ + name + " (expected proxy|direct|block)"@
}

/// The complaint about a policy keyword, given in quotes.
pub fn unknown_policy_message(name: &str) -> (r: String)
    ensures
        r@ == unknown_policy(name@),
{
    let mut out: String = String::new();
    push_str(&mut out, "unknown policy: ");
    push_str(&mut out, name);
    push_str(&mut out, " (expected proxy|direct|block)");
    assert(out@ =~= unknown_policy(name@));
    out
}

// ---------------------------------------------------------------------------
// Model of a rule list
// ---------------------------------------------------------------------------

/// What a rule tests.
pub enum RuleTest {
    /// The domain is exactly this.
    Domain(Seq<char>),
    /// The domain is this or a subdomain of it.
    Suffix(Seq<char>),
    /// The domain holds this.
    Keyword(Seq<char>),
    /// The address belongs to this network: its octets and prefix length.
    Network(Seq<u8>, u8),
}

/// A rule: what it tests and what it decides.
pub struct RuleModel {
    /// The test.
    pub test: RuleTest,
    /// The decision.
    pub policy: Policy,
}

/// `s` without trailing dots.
pub open spec fn undotted(s: Seq<char>) -> Seq<char>
    decreases s.len(),
{
    if s.len() > 0 && s.last() == '.' {
        undotted(s.drop_last())
    } else {
        s
    }
}

/// A domain as it is compared: without white space around it and dots behind
/// it, in lower case.
pub open spec fn plain_name(s: Seq<char>) -> Seq<char> {
    lower(undotted(trimmed(s)))
}

/// Whether a domain is `pattern` or a subdomain of it.
pub open spec fn has_suffix(name: Seq<char>, pattern: Seq<char>) -> bool {
    let k: int = name.len() - pattern.len();
    name == pattern || (k > 0 && name.skip(k) == pattern && name[k - 1] == '.')
}

/// Whether a rule matches a host. Domain rules pass over literal addresses and
/// network rules over domains.
pub open spec fn rule_matches(rule: RuleModel, host: HostModel) -> bool {
    match host {
        HostModel::Domain(d) => match rule.test {
            RuleTest::Domain(p) => plain_name(d) == p,
            RuleTest::Suffix(p) => has_suffix(plain_name(d), p),
            RuleTest::Keyword(k) => occurs(plain_name(d), k),
            RuleTest::Network(o, p) => false,
        },
        HostModel::V4(ip) => match rule.test {
            RuleTest::Network(o, p) => o.len() == 4 && same_prefix(o, ip, p as nat),
            _ => false,
        },
        HostModel::V6(ip) => match rule.test {
            RuleTest::Network(o, p) => o.len() == 16 && same_prefix(o, ip, p as nat),
            _ => false,
        },
    }
}

/// The policy for a host: that of the first rule that matches, else the
/// fallback.
pub open spec fn verdict(rules: Seq<RuleModel>, fallback: Policy, host: HostModel) -> Policy
    decreases rules.len(),
{
    if rules.len() == 0 {
        fallback
    } else if rule_matches(rules[0], host) {
        rules[0].policy
    } else {
        verdict(rules.skip(1), fallback, host)
    }
}

/// A character that may stand in a domain pattern.
pub open spec fn is_pattern_char(c: char) -> bool {
    c == '.' || c == '-' || '0' <= c <= '9' || 'a' <= c <= 'z' || 'A' <= c <= 'Z'
}

/// Every character may stand in a domain pattern.
pub open spec fn is_pattern(s: Seq<char>) -> bool {
    forall|i: int| 0 <= i < s.len() ==> is_pattern_char(#[trigger] s[i])
}

/// The pattern of a rule, or the complaint about it.
pub open spec fn pattern_of(s: Seq<char>) -> Result<Seq<char>, Seq<char>> {
    let name: Seq<char> = plain_name(s);
    if name.len() == 0 {
        Err("empty domain"@)
    } else if !is_pattern(name) {
        Err("invalid domain characters: "@ + debug_text(name))
    } else {
        Ok(name)
    }
}

/// A complaint about rule number `i`, whose quoted text is `name`.
pub open spec fn rule_complaint(i: nat, name: Seq<char>, what: Seq<char>) -> Seq<char> {
    "rule #"@ + decimal_text(i) + " "@ + name + ": "@ + what
}

/// The test of a rule body `type:value`, or the complaint about it.
pub open spec fn test_of(i: nat, spec: Seq<char>, body: Seq<char>) -> Result<RuleTest, Seq<char>> {
    if begins(body, "domain-suffix:"@) {
        match pattern_of(body.skip(14)) {
            Ok(p) => Ok(RuleTest::Suffix(p)),
            Err(e) => Err(rule_complaint(i, debug_text(spec), e)),
        }
    } else if begins(body, "domain-keyword:"@) {
        match pattern_of(body.skip(15)) {
            Ok(p) => Ok(RuleTest::Keyword(p)),
            Err(e) => Err(rule_complaint(i, debug_text(spec), e)),
        }
    } else if begins(body, "domain:"@) {
        match pattern_of(body.skip(7)) {
            Ok(p) => Ok(RuleTest::Domain(p)),
            Err(e) => Err(rule_complaint(i, debug_text(spec), e)),
        }
    } else if begins(body, "ip-cidr:"@) {
        match cidr_literal(trimmed(body.skip(8))) {
            Some((octets, prefix)) => Ok(RuleTest::Network(octets, prefix)),
            None => Err(
                rule_complaint(i, debug_text(spec), "invalid cidr: invalid IP address syntax"@),
            ),
        }
    } else {
        Err(
            rule_complaint(
                i,
                debug_text(spec),
                "unknown rule type (expected domain|domain-suffix|domain-keyword|ip-cidr)"@,
            ),
        )
    }
}

/// Rule number `i` of a list, or the complaint about it.
pub open spec fn rule_of(i: nat, raw: Seq<char>) -> Result<RuleModel, Seq<char>> {
    let spec: Seq<char> = trimmed(raw);
    match last_index(spec, ',') {
        None => Err(rule_complaint(i, debug_text(spec), "missing \",policy\" suffix"@)),
        Some(comma) => {
            let keyword: Seq<char> = trimmed(spec.skip(comma + 1));
            match Policy::named(keyword) {
                None => Err(
                    rule_complaint(i, debug_text(spec), unknown_policy(debug_text(keyword))),
                ),
                Some(policy) => match test_of(i, spec, spec.take(comma)) {
                    Ok(test) => Ok(RuleModel { test, policy }),
                    Err(e) => Err(e),
                },
            }
        },
    }
}

/// The rules of a list of rule strings, or the complaint about the first that
/// is malformed.
pub open spec fn rules_of(specs: Seq<Seq<char>>) -> Result<Seq<RuleModel>, Seq<char>>
    decreases specs.len(),
{
    if specs.len() == 0 {
        Ok(Seq::empty())
    } else {
        match rules_of(specs.drop_last()) {
            Err(e) => Err(e),
            Ok(rules) => match rule_of((specs.len() - 1) as nat, specs.last()) {
                Ok(rule) => Ok(rules.push(rule)),
                Err(e) => Err(e),
            },
        }
    }
}

// ---------------------------------------------------------------------------
// Laws
// ---------------------------------------------------------------------------

/// A list is refused for its first malformed rule, and the complaint names the
/// index of that rule and quotes it. A list that is accepted has all its rules.
pub proof fn law_first_malformed_rule_named(specs: Seq<Seq<char>>)
    ensures
        rules_of(specs) matches Ok(rules) ==> rules.len() == specs.len() && forall|j: int|
            0 <= j < specs.len() ==> rule_of(j as nat, #[trigger] specs[j]) == Ok::<
                RuleModel,
                Seq<char>,
            >(rules[j]),
        rules_of(specs) matches Err(e) ==> exists|i: int, what: Seq<char>|
            0 <= i < specs.len() && (forall|j: int|
                0 <= j < i ==> rule_of(j as nat, #[trigger] specs[j]) is Ok) && rule_of(
                i as nat,
                specs[i],
            ) is Err && e == #[trigger] rule_complaint(
                i as nat,
                debug_text(trimmed(specs[i])),
                what,
            ),
    decreases specs.len(),
{
    if specs.len() > 0 {
        let init: Seq<Seq<char>> = specs.drop_last();
        let n: int = init.len() as int;
        law_first_malformed_rule_named(init);
        match rules_of(init) {
            Err(e) => {
                let (i, what) = choose|i: int, what: Seq<char>|
                    0 <= i < init.len() && (forall|j: int|
                        0 <= j < i ==> rule_of(j as nat, #[trigger] init[j]) is Ok) && rule_of(
                        i as nat,
                        init[i],
                    ) is Err && e == #[trigger] rule_complaint(
                        i as nat,
                        debug_text(trimmed(init[i])),
                        what,
                    );
                assert forall|j: int| 0 <= j < i implies rule_of(
                    j as nat,
                    #[trigger] specs[j],
                ) is Ok by {
                    assert(init[j] == specs[j]);
                }
                assert(e == rule_complaint(i as nat, debug_text(trimmed(specs[i])), what));
            },
            Ok(rules) => {
                assert forall|j: int| 0 <= j < n implies rule_of(
                    j as nat,
                    #[trigger] specs[j],
                ) == Ok::<RuleModel, Seq<char>>(rules[j]) by {
                    assert(init[j] == specs[j]);
                }
                if let Err(e) = rule_of(n as nat, specs[n]) {
                    let what: Seq<char> = lemma_complaint(n as nat, specs[n]);
                    assert(e == rule_complaint(n as nat, debug_text(trimmed(specs[n])), what));
                }
            },
        }
    }
}

/// Every complaint about a rule names its index and quotes it.
proof fn lemma_complaint(i: nat, raw: Seq<char>) -> (what: Seq<char>)
    requires
        rule_of(i, raw) is Err,
    ensures
        rule_of(i, raw) == Err::<RuleModel, Seq<char>>(
            rule_complaint(i, debug_text(trimmed(raw)), what),
        ),
{
    let spec: Seq<char> = trimmed(raw);
    let shown: Seq<char> = debug_text(spec);
    choose|what: Seq<char>|
        rule_of(i, raw) == Err::<RuleModel, Seq<char>>(#[trigger] rule_complaint(i, shown, what))
}

/// A rule string is its kind, a value and a policy, and reads as such: the
/// value of a domain rule in its plain form, where it has the characters of a
/// domain name, and that of a network rule as the network it spells.
pub proof fn law_rule_strings(i: nat, value: Seq<char>, keyword: Seq<char>)
    requires
        Policy::named(keyword) is Some,
    ensures
        ({
            let policy: Policy = Policy::named(keyword)->Some_0;
            let p: Seq<char> = lower(undotted(trimmed(value)));
            let tail: Seq<char> = value + seq![','] + keyword;
            let proper: bool = p.len() > 0 && forall|j: int|
                0 <= j < p.len() ==> {
                    let c: char = #[trigger] p[j];
                    c == '.' || c == '-' || '0' <= c <= '9' || 'a' <= c <= 'z' || 'A' <= c <= 'Z'
                };
            &&& proper ==> rule_of(i, "domain:"@ + tail) == Ok::<RuleModel, Seq<char>>(
                RuleModel { test: RuleTest::Domain(p), policy },
            )
            &&& proper ==> rule_of(i, "domain-suffix:"@ + tail) == Ok::<RuleModel, Seq<char>>(
                RuleModel { test: RuleTest::Suffix(p), policy },
            )
            &&& proper ==> rule_of(i, "domain-keyword:"@ + tail) == Ok::<RuleModel, Seq<char>>(
                RuleModel { test: RuleTest::Keyword(p), policy },
            )
            &&& !proper ==> rule_of(i, "domain:"@ + tail) is Err && rule_of(
                i,
                "domain-suffix:"@ + tail,
            ) is Err && rule_of(i, "domain-keyword:"@ + tail) is Err
            &&& cidr_literal(trimmed(value)) matches Some((octets, prefix)) ==> rule_of(
                i,
                "ip-cidr:"@ + tail,
            ) == Ok::<RuleModel, Seq<char>>(
                RuleModel { test: RuleTest::Network(octets, prefix), policy },
            )
            &&& cidr_literal(trimmed(value)) is None ==> rule_of(i, "ip-cidr:"@ + tail) is Err
        }),
{
    reveal_strlit("domain:");
    reveal_strlit("domain-suffix:");
    reveal_strlit("domain-keyword:");
    reveal_strlit("ip-cidr:");
    let tail: Seq<char> = value + seq![','] + keyword;
    let p: Seq<char> = plain_name(value);
    assert(is_pattern(p) <==> forall|j: int|
        0 <= j < p.len() ==> {
            let c: char = #[trigger] p[j];
            c == '.' || c == '-' || '0' <= c <= '9' || 'a' <= c <= 'z' || 'A' <= c <= 'Z'
        }) by {
        if is_pattern(p) {
            assert forall|j: int| 0 <= j < p.len() implies {
                let c: char = #[trigger] p[j];
                c == '.' || c == '-' || '0' <= c <= '9' || 'a' <= c <= 'z' || 'A' <= c <= 'Z'
            } by {
                assert(is_pattern_char(p[j]));
            }
        }
    }
    lemma_rule_split("domain:"@, value, keyword);
    lemma_rule_split("domain-suffix:"@, value, keyword);
    lemma_rule_split("domain-keyword:"@, value, keyword);
    lemma_rule_split("ip-cidr:"@, value, keyword);
    let a: Seq<char> = "domain:"@ + value;
    let b: Seq<char> = "domain-suffix:"@ + value;
    let c: Seq<char> = "domain-keyword:"@ + value;
    let d: Seq<char> = "ip-cidr:"@ + value;
    assert(a[6] == ':' && b[6] == '-' && c[6] == '-' && b[7] == 's' && c[7] == 'k' && d[0] == 'i');
    lemma_begins(a, "domain-suffix:"@, 6);
    lemma_begins(a, "domain-keyword:"@, 6);
    lemma_begins(c, "domain-suffix:"@, 7);
    lemma_begins(d, "domain-suffix:"@, 0);
    lemma_begins(d, "domain-keyword:"@, 0);
    lemma_begins(d, "domain:"@, 0);
    assert(a.take(7) =~= "domain:"@);
    assert(b.take(14) =~= "domain-suffix:"@);
    assert(c.take(15) =~= "domain-keyword:"@);
    assert(d.take(8) =~= "ip-cidr:"@);
    assert(a.skip(7) =~= value && b.skip(14) =~= value && c.skip(15) =~= value && d.skip(8)
        =~= value);
}

/// A text that differs from another at one place does not begin with it.
proof fn lemma_begins(s: Seq<char>, head: Seq<char>, i: int)
    requires
        0 <= i < head.len(),
        i < s.len(),
        s[i] != head[i],
    ensures
        !begins(s, head),
{
    if begins(s, head) {
        assert(s.take(head.len() as int)[i] == s[i]);
    }
}

/// A rule string splits at its last comma.
proof fn lemma_rule_split(kind: Seq<char>, value: Seq<char>, keyword: Seq<char>)
    requires
        kind.len() > 0,
        !is_space(kind[0]),
        Policy::named(keyword) is Some,
    ensures
        ({
            let s: Seq<char> = kind + (value + seq![','] + keyword);
            &&& trimmed(s) == s
            &&& last_index(s, ',') == Some((kind.len() + value.len()) as int)
            &&& trimmed(s.skip((kind.len() + value.len()) as int + 1)) == keyword
            &&& s.take((kind.len() + value.len()) as int) == kind + value
        }),
{
    reveal_strlit("proxy");
    reveal_strlit("direct");
    reveal_strlit("block");
    let s: Seq<char> = kind + (value + seq![','] + keyword);
    let front: Seq<char> = kind + value;
    assert(s =~= front + seq![','] + keyword);
    assert(keyword.len() > 0);
    assert(s.last() == keyword.last());
    assert(s[0] == kind[0]);
    assert(!is_space(keyword[0]) && !is_space(keyword.last()));
    assert(!keyword.contains(','));
    law_trim_keeps_tight_text(s);
    law_trim_keeps_tight_text(keyword);
    law_separator_found(front, ',', keyword);
}

/// The three policies have these names and no others.
pub proof fn law_policy_names(s: Seq<char>)
    ensures
        Policy::named(s) == Some(Policy::Proxy) <==> s == "proxy"@,
        Policy::named(s) == Some(Policy::Direct) <==> s == "direct"@,
        Policy::named(s) == Some(Policy::Block) <==> s == "block"@,
{
    reveal_strlit("proxy");
    reveal_strlit("direct");
    reveal_strlit("block");
    assert("proxy"@[0] == 'p' && "direct"@[0] == 'd' && "block"@[0] == 'b');
}

/// The plain form of a name is in lower case, ends in no dot, and is the name
/// itself but for case, the dots behind it and the white space around it.
pub proof fn law_plain_name(s: Seq<char>)
    ensures
        lower(plain_name(s)) == plain_name(s),
        plain_name(s).len() > 0 ==> plain_name(s).last() != '.',
        exists|n: int|
            0 <= n <= trimmed(s).len() && plain_name(s) == lower(#[trigger] trimmed(s).take(n)) && (
            forall|k: int| n <= k < trimmed(s).len() ==> #[trigger] trimmed(s)[k] == '.'),
{
    let t: Seq<char> = trimmed(s);
    let n: int = lemma_undotted(t);
    law_lower(undotted(t));
    if plain_name(s).len() > 0 {
        assert(plain_name(s).last() == lower(undotted(t))[n - 1]);
        assert(undotted(t)[n - 1] == t[n - 1]);
    }
    assert(plain_name(s) == lower(t.take(n)));
}

proof fn lemma_undotted(s: Seq<char>) -> (n: int)
    ensures
        0 <= n <= s.len(),
        undotted(s) == s.take(n),
        forall|k: int| n <= k < s.len() ==> #[trigger] s[k] == '.',
        n > 0 ==> s[n - 1] != '.',
    decreases s.len(),
{
    if s.len() > 0 && s.last() == '.' {
        let t: Seq<char> = s.drop_last();
        let n: int = lemma_undotted(t);
        assert(t.take(n) =~= s.take(n));
        assert forall|k: int| n <= k < s.len() implies #[trigger] s[k] == '.' by {
            if k < t.len() {
                assert(t[k] == '.');
            }
        }
        n
    } else {
        assert(s.take(s.len() as int) =~= s);
        s.len() as int
    }
}

/// What the rules test: a domain rule the whole name, a keyword rule whether
/// the name holds it, a network rule whether the leading bits agree.
pub proof fn law_rule_tests(
    p: Seq<char>,
    octets: Seq<u8>,
    prefix: u8,
    policy: Policy,
    d: Seq<char>,
    ip: Seq<u8>,
)
    ensures
        rule_matches(RuleModel { test: RuleTest::Domain(p), policy }, HostModel::Domain(d)) <==> lower(
            undotted(trimmed(d)),
        ) == p,
        rule_matches(RuleModel { test: RuleTest::Keyword(p), policy }, HostModel::Domain(d)) <==> (
        exists|i: int|
            0 <= i <= lower(undotted(trimmed(d))).len() - p.len() && #[trigger] lower(
                undotted(trimmed(d)),
            ).subrange(i, i + p.len()) == p),
        rule_matches(RuleModel { test: RuleTest::Suffix(p), policy }, HostModel::Domain(d)) <==> (
        lower(undotted(trimmed(d))) == p || exists|label: Seq<char>|
            lower(undotted(trimmed(d))) == #[trigger] (label + seq!['.'] + p)),
        octets.len() == 4 ==> (rule_matches(
            RuleModel { test: RuleTest::Network(octets, prefix), policy },
            HostModel::V4(ip),
        ) <==> same_prefix(octets, ip, prefix as nat)),
        octets.len() == 16 ==> (rule_matches(
            RuleModel { test: RuleTest::Network(octets, prefix), policy },
            HostModel::V6(ip),
        ) <==> same_prefix(octets, ip, prefix as nat)),
        octets.len() == 16 ==> !rule_matches(
            RuleModel { test: RuleTest::Network(octets, prefix), policy },
            HostModel::V4(ip),
        ),
        octets.len() == 4 ==> !rule_matches(
            RuleModel { test: RuleTest::Network(octets, prefix), policy },
            HostModel::V6(ip),
        ),
{
    law_suffix_matches_subdomains(lower(undotted(trimmed(d))), p);
}

/// The first rule that matches decides, whatever stands behind it.
pub proof fn law_first_match_wins(
    rules: Seq<RuleModel>,
    fallback: Policy,
    host: HostModel,
    k: int,
)
    requires
        0 <= k < rules.len(),
        rule_matches(rules[k], host),
        forall|j: int| 0 <= j < k ==> !rule_matches(#[trigger] rules[j], host),
    ensures
        verdict(rules, fallback, host) == rules[k].policy,
    decreases k,
{
    if k > 0 {
        assert(!rule_matches(rules[0], host));
        let rest: Seq<RuleModel> = rules.skip(1);
        assert(rest[k - 1] == rules[k]);
        assert forall|j: int| 0 <= j < k - 1 implies !rule_matches(#[trigger] rest[j], host) by {
            assert(rest[j] == rules[j + 1]);
        }
        law_first_match_wins(rest, fallback, host, k - 1);
    }
}

/// Where no rule matches the fallback applies.
pub proof fn law_fallback_applies(rules: Seq<RuleModel>, fallback: Policy, host: HostModel)
    requires
        forall|j: int| 0 <= j < rules.len() ==> !rule_matches(#[trigger] rules[j], host),
    ensures
        verdict(rules, fallback, host) == fallback,
    decreases rules.len(),
{
    if rules.len() > 0 {
        assert(!rule_matches(rules[0], host));
        let rest: Seq<RuleModel> = rules.skip(1);
        assert forall|j: int| 0 <= j < rest.len() implies !rule_matches(
            #[trigger] rest[j],
            host,
        ) by {
            assert(rest[j] == rules[j + 1]);
        }
        law_fallback_applies(rest, fallback, host);
    }
}

/// A suffix pattern matches itself and exactly the names that end in a dot and
/// the pattern.
pub proof fn law_suffix_matches_subdomains(name: Seq<char>, pattern: Seq<char>)
    ensures
        has_suffix(name, pattern) <==> name == pattern || (exists|label: Seq<char>|
            name == #[trigger] (label + seq!['.'] + pattern)),
        forall|label: Seq<char>| has_suffix(#[trigger] (label + seq!['.'] + pattern), pattern),
{
    assert forall|label: Seq<char>| has_suffix(
        #[trigger] (label + seq!['.'] + pattern),
        pattern,
    ) by {
        let full: Seq<char> = label + seq!['.'] + pattern;
        assert(full.skip(full.len() - pattern.len()) =~= pattern);
    }
    if has_suffix(name, pattern) && name != pattern {
        let k: int = name.len() - pattern.len();
        let label: Seq<char> = name.take(k - 1);
        assert(label + seq!['.'] + pattern =~= name) by {
            assert forall|i: int| 0 <= i < name.len() implies (label + seq!['.'] + pattern)[i]
                == name[i] by {
                if i >= k {
                    assert(name.skip(k)[i - k] == name[i]);
                }
            }
        }
    }
}

/// Domain rules never match a literal address, and network rules never match a
/// domain.
pub proof fn law_rule_families(rule: RuleModel, host: HostModel)
    ensures
        host is Domain && rule.test is Network ==> !rule_matches(rule, host),
        !(host is Domain) && !(rule.test is Network) ==> !rule_matches(rule, host),
{
}

// ---------------------------------------------------------------------------
// The rule list
// ---------------------------------------------------------------------------

/// A rule with its policy.
#[derive(Debug, Clone)]
pub enum Rule {
    /// Exact (case-insensitive) domain match.
    Domain(String, Policy),
    /// Domain suffix match: the pattern itself or any subdomain.
    DomainSuffix(String, Policy),
    /// Substring match on the domain.
    DomainKeyword(String, Policy),
    /// Network match on a literal address.
    IpCidr(Cidr, Policy),
}

impl View for Rule {
    type V = RuleModel;

    open spec fn view(&self) -> RuleModel {
        match self {
            Rule::Domain(p, policy) => RuleModel { test: RuleTest::Domain(p@), policy: *policy },
            Rule::DomainSuffix(p, policy) => RuleModel {
                test: RuleTest::Suffix(p@),
                policy: *policy,
            },
            Rule::DomainKeyword(k, policy) => RuleModel {
                test: RuleTest::Keyword(k@),
                policy: *policy,
            },
            Rule::IpCidr(net, policy) => RuleModel {
                test: RuleTest::Network(net.addr.octets(), net.prefix),
                policy: *policy,
            },
        }
    }
}

impl Rule {
    /// A network rule has a prefix no longer than its address.
    pub open spec fn wf(self) -> bool {
        self matches Rule::IpCidr(net, p) ==> net.wf()
    }

    /// The policy of this rule where it matches a host, whose normalized domain
    /// is `name`.
    fn matches(&self, host: &Host, name: &[char]) -> (r: Option<Policy>)
        requires
            self.wf(),
            host matches Host::Domain(d) ==> name@ == plain_name(d@),
        ensures
            r == if rule_matches(self@, host@) {
                Some(self@.policy)
            } else {
                None
            },
    {
        match host {
            Host::Domain(d) => match self {
                Rule::Domain(p, policy) => if spells(name, p.as_str()) {
                    Some(*policy)
                } else {
                    None
                },
                Rule::DomainSuffix(p, policy) => {
                    let pattern: Vec<char> = chars_of(p.as_str());
                    if ends_in(name, pattern.as_slice()) {
                        Some(*policy)
                    } else {
                        None
                    }
                },
                Rule::DomainKeyword(k, policy) => {
                    let keyword: Vec<char> = chars_of(k.as_str());
                    if contains_chars(name, keyword.as_slice()) {
                        Some(*policy)
                    } else {
                        None
                    }
                },
                Rule::IpCidr(net, policy) => None,
            },
            Host::Ip(ip) => match self {
                Rule::IpCidr(net, policy) => {
                    let inside: bool = net.contains(ip);
                    if inside {
                        Some(*policy)
                    } else {
                        None
                    }
                },
                _ => None,
            },
        }
    }
}

/// Whether a domain is `pattern` or a subdomain of it.
fn ends_in(name: &[char], pattern: &[char]) -> (r: bool)
    ensures
        r == has_suffix(name@, pattern@),
{
    if chars_eq(name, pattern) {
        return true;
    }
    let n: usize = name.len();
    let k: usize = pattern.len();
    if n <= k {
        return false;
    }
    let tail: &[char] = slice_subrange(name, n - k, n);
    assert(tail@ =~= name@.skip(n - k));
    chars_eq(tail, pattern) && name[n - k - 1] == '.'
}

/// `s` without trailing dots.
fn strip_dots(s: &[char]) -> (r: &[char])
    ensures
        r@ == undotted(s@),
{
    let mut end: usize = s.len();
    assert(s@.subrange(0, end as int) =~= s@);
    while end > 0 && s[end - 1] == '.'
        invariant
            end <= s@.len(),
            undotted(s@) == undotted(s@.subrange(0, end as int)),
        decreases end,
    {
        assert(s@.subrange(0, end as int).drop_last() =~= s@.subrange(0, end - 1));
        end -= 1;
    }
    slice_subrange(s, 0, end)
}

/// Normalizes a request domain for matching.
pub fn request_domain(s: &str) -> (r: Vec<char>)
    ensures
        r@ == plain_name(s@),
{
    let chars: Vec<char> = chars_of(s);
    plain_name_of(chars.as_slice())
}

fn plain_name_of(s: &[char]) -> (r: Vec<char>)
    ensures
        r@ == plain_name(s@),
{
    to_lower(strip_dots(trim(s)))
}

fn all_pattern_chars(s: &[char]) -> (r: bool)
    ensures
        r == is_pattern(s@),
{
    let mut i: usize = 0;
    while i < s.len()
        invariant
            i <= s@.len(),
            forall|j: int| 0 <= j < i ==> is_pattern_char(#[trigger] s@[j]),
        decreases s@.len() - i,
    {
        let c: char = s[i];
        let ok: bool = c == '.' || c == '-' || ('0' <= c && c <= '9') || ('a' <= c && c <= 'z') || (
        'A' <= c && c <= 'Z');
        if !ok {
            assert(!is_pattern_char(s@[i as int]));
            return false;
        }
        i += 1;
    }
    true
}

/// Normalizes a domain pattern, or says what is wrong with it.
fn normalize_domain(s: &[char]) -> (r: Result<String, String>)
    ensures
        match pattern_of(s@) {
            Ok(p) => r matches Ok(v) && v@ == p,
            Err(e) => r matches Err(v) && v@ == e,
        },
{
    let name: Vec<char> = plain_name_of(s);
    let text: String = string_of(name.as_slice());
    if name.len() == 0 {
        let mut out: String = String::new();
        push_str(&mut out, "empty domain");
        assert(out@ =~= "empty domain"@);
        return Err(out);
    }
    if !all_pattern_chars(name.as_slice()) {
        let shown: String = quoted(text.as_str());
        let mut out: String = String::new();
        push_str(&mut out, "invalid domain characters: ");
        push_str(&mut out, shown.as_str());
        assert(out@ =~= "invalid domain characters: "@ + debug_text(name@));
        return Err(out);
    }
    Ok(text)
}

/// A complaint about rule number `i`, whose quoted text is `name`.
pub fn rule_error(i: usize, name: &str, what: &str) -> (r: String)
    ensures
        r@ == rule_complaint(i as nat, name@, what@),
{
    let mut out: String = String::new();
    push_str(&mut out, "rule #");
    push_decimal(&mut out, i as u128);
    push_str(&mut out, " ");
    push_str(&mut out, name);
    push_str(&mut out, ": ");
    push_str(&mut out, what);
    assert(out@ =~= rule_complaint(i as nat, name@, what@));
    out
}

/// The rule of a network that was read, or the complaint where none was.
pub fn network_rule(i: usize, name: &str, net: Result<Cidr, String>, policy: Policy) -> (r: Result<
    Rule,
    String,
>)
    ensures
        match net {
            Ok(n) => r == Ok::<Rule, String>(Rule::IpCidr(n, policy)),
            Err(e) => r matches Err(v) && v@ == rule_complaint(
                i as nat,
                name@,
                "invalid cidr: "@ + e@,
            ),
        },
{
    match net {
        Ok(n) => Ok(Rule::IpCidr(n, policy)),
        Err(e) => {
            let mut what: String = String::new();
            push_str(&mut what, "invalid cidr: ");
            push_str(&mut what, e.as_str());
            assert(what@ =~= "invalid cidr: "@ + e@);
            Err(rule_error(i, name, what.as_str()))
        },
    }
}

proof fn lemma_heads()
    ensures
        "domain-suffix:"@.len() == 14,
        "domain-keyword:"@.len() == 15,
        "domain:"@.len() == 7,
        "ip-cidr:"@.len() == 8,
        "invalid cidr: "@ + "invalid IP address syntax"@
            == "invalid cidr: invalid IP address syntax"@,
{
    reveal_strlit("domain-suffix:");
    reveal_strlit("domain-keyword:");
    reveal_strlit("domain:");
    reveal_strlit("ip-cidr:");
    reveal_strlit("invalid cidr: ");
    reveal_strlit("invalid IP address syntax");
    reveal_strlit("invalid cidr: invalid IP address syntax");
    assert("invalid cidr: "@ + "invalid IP address syntax"@
        =~= "invalid cidr: invalid IP address syntax"@);
}

/// Parses rule number `i` of a list.
pub fn parse_rule(i: usize, raw: &str) -> (r: Result<Rule, String>)
    ensures
        match rule_of(i as nat, raw@) {
            Ok(m) => r matches Ok(v) && v@ == m && v.wf(),
            Err(e) => r matches Err(v) && v@ == e,
        },
{
    proof {
        lemma_heads();
    }
    let chars: Vec<char> = chars_of(raw);
    let spec: &[char] = trim(chars.as_slice());
    let spec_text: String = string_of(spec);
    let shown: String = quoted(spec_text.as_str());
    let comma: usize = match rfind(spec, ',') {
        Some(c) => c,
        None => return Err(rule_error(i, shown.as_str(), "missing \",policy\" suffix")),
    };
    let total: usize = spec.len();
    let tail: &[char] = slice_subrange(spec, comma + 1, total);
    assert(tail@ =~= spec@.skip(comma + 1));
    let keyword: &[char] = trim(tail);
    let policy: Policy = match Policy::from_keyword(keyword) {
        Some(p) => p,
        None => {
            let keyword_text: String = string_of(keyword);
            let keyword_shown: String = quoted(keyword_text.as_str());
            let what: String = unknown_policy_message(keyword_shown.as_str());
            return Err(rule_error(i, shown.as_str(), what.as_str()));
        },
    };
    let body: &[char] = slice_subrange(spec, 0, comma);
    assert(body@ =~= spec@.take(comma as int));
    let n: usize = body.len();
    if starts_with(body, "domain-suffix:") {
        let value: &[char] = slice_subrange(body, 14, n);
        assert(value@ =~= body@.skip(14));
        match normalize_domain(value) {
            Ok(p) => Ok(Rule::DomainSuffix(p, policy)),
            Err(e) => Err(rule_error(i, shown.as_str(), e.as_str())),
        }
    } else if starts_with(body, "domain-keyword:") {
        let value: &[char] = slice_subrange(body, 15, n);
        assert(value@ =~= body@.skip(15));
        match normalize_domain(value) {
            Ok(p) => Ok(Rule::DomainKeyword(p, policy)),
            Err(e) => Err(rule_error(i, shown.as_str(), e.as_str())),
        }
    } else if starts_with(body, "domain:") {
        let value: &[char] = slice_subrange(body, 7, n);
        assert(value@ =~= body@.skip(7));
        match normalize_domain(value) {
            Ok(p) => Ok(Rule::Domain(p, policy)),
            Err(e) => Err(rule_error(i, shown.as_str(), e.as_str())),
        }
    } else if starts_with(body, "ip-cidr:") {
        let value: &[char] = slice_subrange(body, 8, n);
        assert(value@ =~= body@.skip(8));
        let text: String = string_of(trim(value));
        let net: Result<Cidr, String> = parse_cidr(text.as_str());
        network_rule(i, shown.as_str(), net, policy)
    } else {
        Err(
            rule_error(
                i,
                shown.as_str(),
                "unknown rule type (expected domain|domain-suffix|domain-keyword|ip-cidr)",
            ),
        )
    }
}

/// An ordered rule list with a fallback policy (first match wins).
#[derive(Debug, Clone)]
pub struct RuleSet {
    rules: Vec<Rule>,
    final_policy: Policy,
}

/// What the strings of a list hold.
pub open spec fn texts(specs: Seq<String>) -> Seq<Seq<char>> {
    Seq::new(specs.len(), |i: int| specs[i]@)
}

/// What the rules of a list hold.
pub open spec fn models(rules: Seq<Rule>) -> Seq<RuleModel> {
    Seq::new(rules.len(), |i: int| rules[i]@)
}

impl RuleSet {
    /// The rules in order.
    pub closed spec fn rules(&self) -> Seq<RuleModel> {
        models(self.rules@)
    }

    /// The fallback.
    pub closed spec fn fallback(&self) -> Policy {
        self.final_policy
    }

    /// Every network rule has a prefix no longer than its address.
    pub closed spec fn wf(&self) -> bool {
        forall|i: int| 0 <= i < self.rules@.len() ==> (#[trigger] self.rules@[i]).wf()
    }

    /// Builds a ruleset from `type:value,policy` strings. The first malformed
    /// string is reported with its index.
    pub fn parse(specs: &[String], final_policy: Policy) -> (r: Result<RuleSet, String>)
        ensures
            match rules_of(texts(specs@)) {
                Ok(rules) => r matches Ok(v) && v.rules() == rules && v.fallback() == final_policy
                    && v.wf(),
                Err(e) => r matches Err(v) && v@ == e,
            },
    {
        let mut rules: Vec<Rule> = Vec::new();
        let mut i: usize = 0;
        let ghost all: Seq<Seq<char>> = texts(specs@);
        proof {
            assert(models(rules@) =~= Seq::<RuleModel>::empty());
            assert(all.take(0) =~= Seq::<Seq<char>>::empty());
        }
        while i < specs.len()
            invariant
                i <= specs@.len(),
                all == texts(specs@),
                rules_of(all.take(i as int)) == Ok::<Seq<RuleModel>, Seq<char>>(models(rules@)),
                forall|j: int| 0 <= j < rules@.len() ==> (#[trigger] rules@[j]).wf(),
            decreases specs@.len() - i,
        {
            proof {
                assert(all.take(i + 1).drop_last() =~= all.take(i as int));
                assert(all.take(i + 1).last() == specs@[i as int]@);
            }
            match parse_rule(i, specs[i].as_str()) {
                Ok(rule) => {
                    let ghost before: Seq<Rule> = rules@;
                    rules.push(rule);
                    assert(models(rules@) =~= models(before).push(rule@));
                },
                Err(e) => {
                    proof {
                        lemma_rules_error(all, (i + 1) as int);
                    }
                    return Err(e);
                },
            }
            i += 1;
        }
        assert(all.take(i as int) =~= all);
        Ok(RuleSet { rules, final_policy })
    }

    /// The fallback policy applied when no rule matches.
    pub fn final_policy(&self) -> (r: Policy)
        ensures
            r == self.fallback(),
    {
        self.final_policy
    }

    /// Resolves the policy for a request host. Domain rules are skipped for
    /// literal addresses and network rules for domains: nothing is resolved
    /// locally.
    pub fn decide(&self, host: &Host) -> (r: Policy)
        requires
            self.wf(),
        ensures
            r == verdict(self.rules(), self.fallback(), host@),
    {
        let name: Vec<char> = match host {
            Host::Domain(d) => request_domain(d.as_str()),
            Host::Ip(ip) => Vec::new(),
        };
        let ghost all: Seq<RuleModel> = self.rules();
        let mut i: usize = 0;
        assert(all.skip(0) =~= all);
        while i < self.rules.len()
            invariant
                i <= self.rules@.len(),
                self.wf(),
                all == models(self.rules@),
                host matches Host::Domain(d) ==> name@ == plain_name(d@),
                verdict(all, self.final_policy, host@) == verdict(
                    all.skip(i as int),
                    self.final_policy,
                    host@,
                ),
            decreases self.rules@.len() - i,
        {
            proof {
                assert(all.skip(i as int)[0] == self.rules@[i as int]@);
                assert(all.skip(i as int).skip(1) =~= all.skip(i + 1));
            }
            match self.rules[i].matches(host, name.as_slice()) {
                Some(policy) => return policy,
                None => {},
            }
            i += 1;
        }
        self.final_policy
    }
}

proof fn lemma_rules_error(specs: Seq<Seq<char>>, n: int)
    requires
        0 <= n <= specs.len(),
        rules_of(specs.take(n)) is Err,
    ensures
        rules_of(specs) == rules_of(specs.take(n)),
    decreases specs.len(),
{
    if n < specs.len() {
        let init: Seq<Seq<char>> = specs.drop_last();
        assert(init.take(n) =~= specs.take(n));
        lemma_rules_error(init, n);
    } else {
        assert(specs.take(n) =~= specs);
    }
}

} // verus!
