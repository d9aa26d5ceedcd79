//! What is known of the sets of rules, and how a downloaded one is brought up
//! to date.
use vstd::prelude::*;
use crate::config::route::{RouteConfig, RuleSetFormat, RuleSetRef, RuleSetType};
use crate::table::{Key, Table};
use crate::text;

verus! {

/// What is known of a set of rules.
#[derive(Clone, Copy, Debug, PartialEq, Eq, Structural)]
pub struct RuleSetMeta {
    pub rule_count: usize,
    /// When it was brought up to date, in milliseconds.
    pub updated_at_ms: u64,
}

/// Why a set of rules cannot be brought up to date.
#[derive(Debug, PartialEq, Eq)]
pub enum ReloadError {
    NotFound,
    NotRemote,
    MissingUrl,
    /// The download is no text, although the set is written as text; with the
    /// fault that was found.
    NotText(String),
}

/// A download to be made.
pub struct Download {
    pub url: String,
    /// Where it is to be kept.
    pub path: Option<String>,
    pub format: RuleSetFormat,
}

/// What a download holds.
pub enum Downloaded {
    /// A set in its compiled form.
    Binary,
    /// A set in JSON, without space before it.
    Json { source: String, body: String },
    /// A set in lines, without space before them.
    Lines { source: String, body: String },
}

/// What is known of the sets of rules.
pub struct RuleSetRegistry {
    route_config: RouteConfig,
    meta: Table<String, RuleSetMeta>,
}

impl View for RuleSetRegistry {
    type V = Map<Seq<char>, RuleSetMeta>;

    /// What is known, by tag.
    closed spec fn view(&self) -> Map<Seq<char>, RuleSetMeta> {
        self.meta@
    }
}

/// The first set of a tag from `i` on, or the number of sets.
pub open spec fn first_set(sets: Seq<RuleSetRef>, tag: Seq<char>, i: int) -> int
    decreases sets.len() - i,
{
    if i < 0 || i >= sets.len() {
        sets.len() as int
    } else if sets[i].tag@ == tag {
        i
    } else {
        first_set(sets, tag, i + 1)
    }
}

/// What is known after the first `n` of a list, of which later ones count.
pub open spec fn known(list: Seq<(String, RuleSetMeta)>, n: int) -> Map<Seq<char>, RuleSetMeta>
    decreases n,
{
    if n <= 0 {
        Map::empty()
    } else {
        known(list, n - 1).insert(list[n - 1].0@, list[n - 1].1)
    }
}

/// The message of an error.
pub open spec fn reload_text(tag: Seq<char>, e: ReloadError) -> Seq<char> {
    "rule_set '"@ + tag + (match e {
        ReloadError::NotFound => "' not found"@,
        ReloadError::NotRemote => "' is not remote, cannot update"@,
        ReloadError::MissingUrl => "': missing url"@,
        ReloadError::NotText(fault) => "': downloaded source is not UTF-8: "@ + fault@,
    })
}

impl ReloadError {
    /// The message.
    pub fn message(&self, tag: &str) -> (r: String)
        ensures
            r@ == reload_text(tag@, *self),
    {
        let mut t: Vec<char> = text::chars_of("rule_set '");
        text::push_text(&mut t, tag);
        text::push_text(
            &mut t,
            match self {
                ReloadError::NotFound => "' not found",
                ReloadError::NotRemote => "' is not remote, cannot update",
                ReloadError::MissingUrl => "': missing url",
                ReloadError::NotText(_) => "': downloaded source is not UTF-8: ",
            },
        );
        if let ReloadError::NotText(fault) = self {
            text::push_text(&mut t, fault.as_str());
        }
        assert(t@ =~= reload_text(tag@, *self));
        text::string_of(t.as_slice())
    }
}

/// Finds the first set of a tag.
pub fn find_rule_set(sets: &Vec<RuleSetRef>, tag: &str) -> (r: Option<usize>)
    ensures
        match r {
            Some(i) => i < sets@.len() && i == first_set(sets@, tag@, 0),
            None => first_set(sets@, tag@, 0) == sets@.len(),
        },
{
    let mut i: usize = 0;
    while i < sets.len()
        invariant
            i <= sets@.len(),
            first_set(sets@, tag@, 0) == first_set(sets@, tag@, i as int),
        decreases sets@.len() - i,
    {
        if text::same_text(sets[i].tag.as_str(), tag) {
            return Some(i);
        }
        i = i + 1;
    }
    None
}

impl RuleSetRegistry {
    /// No tag occurs twice.
    pub closed spec fn wf(self) -> bool {
        self.meta.wf()
    }

    /// The sets of the settings.
    pub closed spec fn rule_sets(self) -> Seq<RuleSetRef> {
        self.route_config.rule_set@
    }

    /// A registry with what the router knows.
    pub fn from_router_meta(route_config: RouteConfig, meta: Vec<(String, RuleSetMeta)>) -> (r: Self)
        ensures
            r.wf(),
            r.rule_sets() == route_config.rule_set@,
            r@ == known(meta@, meta@.len() as int),
    {
        let mut t: Table<String, RuleSetMeta> = Table::new();
        let mut i: usize = 0;
        while i < meta.len()
            invariant
                i <= meta@.len(),
                t.wf(),
                t@ == known(meta@, i as int),
            decreases meta@.len() - i,
        {
            t.insert(meta[i].0.as_str().to_owned(), meta[i].1);
            i = i + 1;
        }
        RuleSetRegistry { route_config, meta: t }
    }

    /// What is known of a set.
    pub fn lookup(&self, tag: &str) -> (r: Option<RuleSetMeta>)
        ensures
            match r {
                Some(m) => self@.contains_key(tag@) && m == self@[tag@],
                None => !self@.contains_key(tag@),
            },
    {
        match self.meta.get(&tag.to_owned()) {
            Some(m) => Some(*m),
            None => None,
        }
    }

    /// All that is known.
    pub fn snapshot(&self) -> (r: Vec<(String, RuleSetMeta)>)
        requires
            self.wf(),
        ensures
            known(r@, r@.len() as int) == self@,
            forall|i: int, j: int|
                0 <= i < j < r@.len() ==> (#[trigger] r@[i]).0@ != (#[trigger] r@[j]).0@,
    {
        let mut r: Vec<(String, RuleSetMeta)> = Vec::new();
        let mut i: usize = 0;
        while i < self.meta.len()
            invariant
                i <= self.meta.entries().len(),
                r@.len() == i,
                forall|k: int|
                    0 <= k < i ==> (#[trigger] r@[k]).0@ == self.meta.entries()[k].0@ && r@[k].1
                        == self.meta.entries()[k].1,
            decreases self.meta.entries().len() - i,
        {
            let e: &(String, RuleSetMeta) = self.meta.at(i);
            r.push((e.0.as_str().to_owned(), e.1));
            i = i + 1;
        }
        proof {
            self.meta.lemma_distinct();
            assert forall|a: int, b: int| 0 <= a < b < r@.len() implies (#[trigger] r@[a]).0@ != (
            #[trigger] r@[b]).0@ by {
                assert(self.meta.entries()[a].0.key() != self.meta.entries()[b].0.key());
            }
            let m = known(r@, r@.len() as int);
            assert forall|k: Seq<char>| #[trigger] self@.contains_key(k) implies m.contains_key(k)
                && m[k] == self@[k] by {
                let a = self.meta.lemma_key(k);
                lemma_known(r@, r@.len() as int, a);
            }
            assert forall|k: Seq<char>| #[trigger] m.contains_key(k) implies self@.contains_key(
                k,
            ) by {
                let a = lemma_known_from(r@, r@.len() as int, k);
                self.meta.lemma_entry(a);
            }
            assert(m =~= self@);
        }
        r
    }

    /// The download that brings a set up to date: only sets that are downloaded
    /// can be, and only from their address.
    pub fn reload_remote(&self, tag: &str) -> (r: Result<Download, ReloadError>)
        ensures
            ({
                let sets = self.rule_sets();
                let i = first_set(sets, tag@, 0);
                if i >= sets.len() {
                    r == Err::<Download, ReloadError>(ReloadError::NotFound)
                } else if sets[i].kind != RuleSetType::Remote {
                    r == Err::<Download, ReloadError>(ReloadError::NotRemote)
                } else {
                    match sets[i].url {
                        None => r == Err::<Download, ReloadError>(ReloadError::MissingUrl),
                        Some(u) => {
                            &&& r matches Ok(d)
                            &&& d.url@ == u@
                            &&& d.path is Some <==> sets[i].path is Some
                            &&& d.path matches Some(p) ==> p@ == sets[i].path->0@
                            &&& d.format == sets[i].format
                        },
                    }
                }
            }),
    {
        let i: usize = match find_rule_set(&self.route_config.rule_set, tag) {
            Some(i) => i,
            None => {
                return Err(ReloadError::NotFound);
            },
        };
        let s: &RuleSetRef = &self.route_config.rule_set[i];
        if s.kind != RuleSetType::Remote {
            return Err(ReloadError::NotRemote);
        }
        match &s.url {
            None => Err(ReloadError::MissingUrl),
            Some(u) => Ok(
                Download {
                    url: u.as_str().to_owned(),
                    path: match &s.path {
                        Some(p) => Some(p.as_str().to_owned()),
                        None => None,
                    },
                    format: s.format,
                },
            ),
        }
    }

    /// Notes that a set has been brought up to date.
    pub fn finish_reload(&mut self, tag: &str, rule_count: usize, now_ms: u64)
        requires
            old(self).wf(),
        ensures
            final(self).wf(),
            final(self).rule_sets() == old(self).rule_sets(),
            final(self)@ == old(self)@.insert(
                tag@,
                (RuleSetMeta { rule_count, updated_at_ms: now_ms }),
            ),
    {
        self.meta.insert(tag.to_owned(), RuleSetMeta { rule_count, updated_at_ms: now_ms });
    }
}

/// What a download holds, by the form of the set. What is written as text must
/// be text; it is JSON if it begins with a brace.
pub fn classify_download(format: RuleSetFormat, data: &[u8]) -> (r: Result<Downloaded, ReloadError>)
    ensures
        if format == RuleSetFormat::Binary {
            r matches Ok(d) && d is Binary
        } else if !vstd::utf8::valid_utf8(data@) {
            r matches Err(ReloadError::NotText(fault)) && fault@ == text::utf8_fault(data@)
        } else {
            let s = vstd::utf8::decode_utf8(data@);
            let t = text::trimmed_start(s);
            if t.len() > 0 && t[0] == '{' {
                r matches Ok(Downloaded::Json { source, body }) && source@ == s && body@ == t
            } else {
                r matches Ok(Downloaded::Lines { source, body }) && source@ == s && body@ == t
            }
        },
{
    if format == RuleSetFormat::Binary {
        return Ok(Downloaded::Binary);
    }
    match text::utf8_text(data) {
        Err(fault) => Err(ReloadError::NotText(fault)),
        Ok(source) => {
            let chars: Vec<char> = text::chars_of(source.as_str());
            let t: &[char] = text::trim_start(chars.as_slice());
            let body: String = text::string_of(t);
            if t.len() > 0 && t[0] == '{' {
                Ok(Downloaded::Json { source, body })
            } else {
                Ok(Downloaded::Lines { source, body })
            }
        },
    }
}

proof fn lemma_known(list: Seq<(String, RuleSetMeta)>, n: int, i: int)
    requires
        0 <= i < n <= list.len(),
        forall|a: int, b: int|
            0 <= a < b < list.len() ==> (#[trigger] list[a]).0@ != (#[trigger] list[b]).0@,
    ensures
        known(list, n).contains_key(list[i].0@),
        known(list, n)[list[i].0@] == list[i].1,
    decreases n,
{
    if i < n - 1 {
        lemma_known(list, n - 1, i);
        assert(list[i].0@ != list[n - 1].0@);
    }
}

proof fn lemma_known_from(list: Seq<(String, RuleSetMeta)>, n: int, k: Seq<char>) -> (i: int)
    requires
        0 <= n <= list.len(),
        known(list, n).contains_key(k),
    ensures
        0 <= i < n,
        list[i].0@ == k,
    decreases n,
{
    if list[n - 1].0@ == k {
        n - 1
    } else {
        lemma_known_from(list, n - 1, k)
    }
}

proof fn lemma_first_set(sets: Seq<RuleSetRef>, tag: Seq<char>, i: int, k: int)
    requires
        0 <= i <= k <= sets.len(),
        forall|j: int| i <= j < k ==> (#[trigger] sets[j]).tag@ != tag,
    ensures
        first_set(sets, tag, i) == first_set(sets, tag, k),
    decreases k - i,
{
    if i < k {
        assert(sets[i].tag@ != tag);
        lemma_first_set(sets, tag, i + 1, k);
    }
}

/// The set of a tag is the first one that has it.
pub proof fn law_first_set_of_a_tag(sets: Seq<RuleSetRef>, tag: Seq<char>, k: int)
    requires
        0 <= k <= sets.len(),
        forall|j: int| 0 <= j < k ==> (#[trigger] sets[j]).tag@ != tag,
        k < sets.len() ==> sets[k].tag@ == tag,
    ensures
        first_set(sets, tag, 0) == k,
{
    lemma_first_set(sets, tag, 0, k);
}

proof fn lemma_last_mention(list: Seq<(String, RuleSetMeta)>, n: int, k: int)
    requires
        0 <= k < n <= list.len(),
        forall|j: int| k < j < n ==> (#[trigger] list[j]).0@ != list[k].0@,
    ensures
        known(list, n).contains_key(list[k].0@),
        known(list, n)[list[k].0@] == list[k].1,
    decreases n,
{
    if n - 1 > k {
        assert(list[n - 1].0@ != list[k].0@);
        lemma_last_mention(list, n - 1, k);
    }
}

/// What is known of a set is what the list says of its tag last.
pub proof fn law_last_mention_counts(list: Seq<(String, RuleSetMeta)>, k: int)
    requires
        0 <= k < list.len(),
        forall|j: int| k < j < list.len() ==> (#[trigger] list[j]).0@ != list[k].0@,
    ensures
        known(list, list.len() as int).contains_key(list[k].0@),
        known(list, list.len() as int)[list[k].0@] == list[k].1,
{
    lemma_last_mention(list, list.len() as int, k);
}

} // verus!
