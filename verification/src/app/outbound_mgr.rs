//! The outbounds by tag.
use vstd::prelude::*;
use crate::app::dispatcher;
use crate::config::outbound::OutboundConfig;
use crate::text;

verus! {

/// The tag of the outbound that is always there.
pub const DIRECT: &'static str = "direct";

/// What an outbound is built as.
#[derive(Clone, Copy, Debug, PartialEq, Eq, Structural)]
pub enum OutboundKind {
    Direct,
    Block,
    Socks,
    Selector,
    UrlTest,
    Shadowsocks,
    Trojan,
    Vless,
    Vmess,
    Hysteria2,
    Tuic,
    AnyTls,
}

/// Which parts there are, or are handed to an outbound, besides its settings.
#[derive(Clone, Copy, Debug, PartialEq, Eq, Structural)]
pub struct OutboundParts {
    /// A resolver for names.
    pub resolver: bool,
    /// Where the choice of a group is kept.
    pub cache_writer: bool,
    /// Where the kept choice of a group is read.
    pub cache_reader: bool,
    /// Those who provide outbounds to groups.
    pub providers: bool,
}

/// An outbound to be built.
pub struct OutboundSlot {
    pub tag: String,
    pub kind: OutboundKind,
    /// The place of its settings; the built-in one has none.
    pub config: Option<usize>,
    /// The parts that it is given.
    pub parts: OutboundParts,
    /// The mark that its sockets carry, if it opens any.
    pub mark: Option<u32>,
}

/// What an outbound reports of itself.
#[derive(Debug)]
pub struct OutboundStatus {
    pub name: String,
    pub kind_name: String,
    /// The outbound that a group uses.
    pub now: Option<String>,
    /// The outbounds of a group.
    pub all: Vec<String>,
}

/// Two outbounds have the same tag.
#[derive(Debug)]
pub struct DuplicateTag {
    pub tag: String,
}

impl DuplicateTag {
    /// The message.
    pub fn message(&self) -> (r: String)
        ensures
            r@ == "duplicate outbound tag: '"@ + self.tag@ + "'"@,
    {
        let mut t: Vec<char> = text::chars_of("duplicate outbound tag: '");
        text::push_text(&mut t, self.tag.as_str());
        text::push_text(&mut t, "'");
        text::string_of(t.as_slice())
    }
}

/// What settings are built as; `net` tells whether the protocols that go over
/// the network are built in. Without them their outbounds let nothing through.
pub open spec fn kind_of(c: OutboundConfig, net: bool) -> OutboundKind {
    match c {
        OutboundConfig::Direct(_) => OutboundKind::Direct,
        OutboundConfig::Block(_) => OutboundKind::Block,
        OutboundConfig::Socks(_) => OutboundKind::Socks,
        OutboundConfig::Selector(_) => OutboundKind::Selector,
        OutboundConfig::UrlTest(_) => OutboundKind::UrlTest,
        _ => if !net {
            OutboundKind::Block
        } else {
            match c {
                OutboundConfig::Shadowsocks(_) => OutboundKind::Shadowsocks,
                OutboundConfig::Trojan(_) => OutboundKind::Trojan,
                OutboundConfig::Vless(_) => OutboundKind::Vless,
                OutboundConfig::Vmess(_) => OutboundKind::Vmess,
                OutboundConfig::Hysteria2(_) => OutboundKind::Hysteria2,
                OutboundConfig::Tuic(_) => OutboundKind::Tuic,
                _ => OutboundKind::AnyTls,
            }
        },
    }
}

/// What settings are built as.
pub fn outbound_kind(c: &OutboundConfig, net: bool) -> (r: OutboundKind)
    ensures
        r == kind_of(*c, net),
{
    match c {
        OutboundConfig::Direct(_) => OutboundKind::Direct,
        OutboundConfig::Block(_) => OutboundKind::Block,
        OutboundConfig::Socks(_) => OutboundKind::Socks,
        OutboundConfig::Selector(_) => OutboundKind::Selector,
        OutboundConfig::UrlTest(_) => OutboundKind::UrlTest,
        _ => if !net {
            OutboundKind::Block
        } else {
            match c {
                OutboundConfig::Shadowsocks(_) => OutboundKind::Shadowsocks,
                OutboundConfig::Trojan(_) => OutboundKind::Trojan,
                OutboundConfig::Vless(_) => OutboundKind::Vless,
                OutboundConfig::Vmess(_) => OutboundKind::Vmess,
                OutboundConfig::Hysteria2(_) => OutboundKind::Hysteria2,
                OutboundConfig::Tuic(_) => OutboundKind::Tuic,
                _ => OutboundKind::AnyTls,
            }
        },
    }
}

/// The parts that an outbound is given of those that there are.
pub open spec fn parts_of(kind: OutboundKind, all: OutboundParts) -> OutboundParts {
    OutboundParts {
        resolver: kind == OutboundKind::Direct && all.resolver,
        cache_writer: kind == OutboundKind::Selector && all.cache_writer,
        cache_reader: kind == OutboundKind::Selector && all.cache_reader,
        providers: kind == OutboundKind::Selector && all.providers,
    }
}

/// The mark of an outbound's sockets: those that let nothing through and
/// groups open none.
pub open spec fn mark_of(kind: OutboundKind, routing_mark: u32) -> Option<u32> {
    if kind == OutboundKind::Block || kind == OutboundKind::Selector || kind
        == OutboundKind::UrlTest {
        None
    } else {
        Some(routing_mark)
    }
}

/// An outbound of a kind.
fn slot_for(
    tag: &str,
    kind: OutboundKind,
    config: Option<usize>,
    all: OutboundParts,
    routing_mark: u32,
) -> (r: OutboundSlot)
    ensures
        r.tag@ == tag@,
        r.kind == kind,
        r.config == config,
        r.parts == parts_of(kind, all),
        r.mark == mark_of(kind, routing_mark),
{
    let direct: bool = kind == OutboundKind::Direct;
    let selector: bool = kind == OutboundKind::Selector;
    OutboundSlot {
        tag: tag.to_owned(),
        kind,
        config,
        parts: OutboundParts {
            resolver: direct && all.resolver,
            cache_writer: selector && all.cache_writer,
            cache_reader: selector && all.cache_reader,
            providers: selector && all.providers,
        },
        mark: if kind == OutboundKind::Block || selector || kind == OutboundKind::UrlTest {
            None
        } else {
            Some(routing_mark)
        },
    }
}

/// Whether one of the first `n` settings has a tag.
pub open spec fn tag_among(configs: Seq<OutboundConfig>, n: int, tag: Seq<char>) -> bool {
    exists|i: int| 0 <= i < n && (#[trigger] configs[i]).tag_of() == tag
}

/// The first settings from `i` on whose tag occurs before them, or their
/// number.
pub open spec fn first_duplicate(configs: Seq<OutboundConfig>, i: int) -> int
    decreases configs.len() - i,
{
    if i < 0 || i >= configs.len() {
        configs.len() as int
    } else if tag_among(configs, i, configs[i].tag_of()) {
        i
    } else {
        first_duplicate(configs, i + 1)
    }
}

/// Whether the slots are those of the settings, in order, with the direct
/// outbound behind them if the settings have none of its tag.
pub open spec fn slots_of(
    slots: Seq<OutboundSlot>,
    configs: Seq<OutboundConfig>,
    all: OutboundParts,
    routing_mark: u32,
    net: bool,
) -> bool {
    &&& slots.len() == configs.len() + (if tag_among(
        configs,
        configs.len() as int,
        DIRECT@,
    ) {
        0int
    } else {
        1
    })
    &&& forall|i: int|
        0 <= i < configs.len() ==> (#[trigger] slots[i]).tag@ == configs[i].tag_of()
            && slots[i].kind == kind_of(configs[i], net) && slots[i].config == Some(i as usize)
    &&& slots.len() > configs.len() ==> slots.last().tag@ == DIRECT@ && slots.last().kind
        == OutboundKind::Direct && slots.last().config is None
    &&& forall|i: int|
        0 <= i < slots.len() ==> (#[trigger] slots[i]).parts == parts_of(slots[i].kind, all)
            && slots[i].mark == mark_of(slots[i].kind, routing_mark)
}

/// The place of a tag among the first `n` slots, or -1.
pub open spec fn slot_of(slots: Seq<OutboundSlot>, n: int, tag: Seq<char>) -> int
    decreases n,
{
    if n <= 0 {
        -1
    } else if slots[n - 1].tag@ == tag {
        n - 1
    } else {
        slot_of(slots, n - 1, tag)
    }
}

/// No part but a resolver, if there is one.
pub open spec fn with_resolver(resolver: bool) -> OutboundParts {
    OutboundParts { resolver, cache_writer: false, cache_reader: false, providers: false }
}

/// Whether statuses are in the order of their names.
pub open spec fn by_name(s: Seq<OutboundStatus>) -> bool {
    forall|i: int, j: int|
        0 <= i < j < s.len() ==> text::not_after(
            (#[trigger] s[i]).name@,
            (#[trigger] s[j]).name@,
        )
}

/// The outbounds by tag.
pub struct OutboundManager {
    slots: Vec<OutboundSlot>,
}

fn config_tag_among(configs: &[OutboundConfig], n: usize, tag: &str) -> (r: bool)
    requires
        n <= configs@.len(),
    ensures
        r == tag_among(configs@, n as int, tag@),
{
    let mut i: usize = 0;
    while i < n
        invariant
            i <= n <= configs@.len(),
            forall|k: int| 0 <= k < i ==> (#[trigger] configs@[k]).tag_of() != tag@,
        decreases n - i,
    {
        if text::same_text(configs[i].tag(), tag) {
            assert(configs@[i as int].tag_of() == tag@);
            return true;
        }
        i = i + 1;
    }
    false
}

impl OutboundManager {
    /// The slots.
    pub closed spec fn slots(self) -> Seq<OutboundSlot> {
        self.slots@
    }

    /// No tag occurs twice, and the direct outbound is there.
    pub open spec fn wf(self) -> bool {
        &&& forall|i: int, j: int|
            0 <= i < j < self.slots().len() ==> (#[trigger] self.slots()[i]).tag@ != (
            #[trigger] self.slots()[j]).tag@
        &&& slot_of(self.slots(), self.slots().len() as int, DIRECT@) >= 0
    }

    /// The outbounds of the settings, without any other part and with the
    /// protocols that go over the network built in.
    pub fn from_config(configs: &[OutboundConfig]) -> (r: Result<Self, DuplicateTag>)
        ensures
            match r {
                Ok(m) => m.wf() && first_duplicate(configs@, 0) == configs@.len() && slots_of(
                    m.slots(),
                    configs@,
                    with_resolver(false),
                    0,
                    true,
                ),
                Err(e) => ({
                    let i = first_duplicate(configs@, 0);
                    i < configs@.len() && e.tag@ == configs@[i].tag_of()
                }),
            },
    {
        OutboundManager::from_config_with_resolver(configs, false)
    }

    /// The outbounds of the settings; direct ones use the resolver, if there is
    /// one.
    pub fn from_config_with_resolver(configs: &[OutboundConfig], resolver: bool) -> (r: Result<
        Self,
        DuplicateTag,
    >)
        ensures
            match r {
                Ok(m) => m.wf() && first_duplicate(configs@, 0) == configs@.len() && slots_of(
                    m.slots(),
                    configs@,
                    with_resolver(resolver),
                    0,
                    true,
                ),
                Err(e) => ({
                    let i = first_duplicate(configs@, 0);
                    i < configs@.len() && e.tag@ == configs@[i].tag_of()
                }),
            },
    {
        let all: OutboundParts = OutboundParts {
            resolver,
            cache_writer: false,
            cache_reader: false,
            providers: false,
        };
        OutboundManager::from_config_full(configs, all, 0, true)
    }

    /// The outbounds of the settings. The first tag that occurs twice is an
    /// error.
    pub fn from_config_full(
        configs: &[OutboundConfig],
        all: OutboundParts,
        routing_mark: u32,
        net: bool,
    ) -> (r: Result<Self, DuplicateTag>)
        ensures
            match r {
                Ok(m) => m.wf() && first_duplicate(configs@, 0) == configs@.len() && slots_of(
                    m.slots(),
                    configs@,
                    all,
                    routing_mark,
                    net,
                ),
                Err(e) => ({
                    let i = first_duplicate(configs@, 0);
                    i < configs@.len() && e.tag@ == configs@[i].tag_of()
                }),
            },
    {
        let mut slots: Vec<OutboundSlot> = Vec::new();
        let n: usize = configs.len();
        let mut i: usize = 0;
        while i < n
            invariant
                n == configs@.len(),
                i <= n,
                first_duplicate(configs@, 0) == first_duplicate(configs@, i as int),
                slots@.len() == i,
                forall|k: int|
                    0 <= k < i ==> (#[trigger] slots@[k]).tag@ == configs@[k].tag_of()
                        && slots@[k].kind == kind_of(configs@[k], net) && slots@[k].config == Some(
                        k as usize,
                    ),
                forall|k: int|
                    0 <= k < i ==> (#[trigger] slots@[k]).parts == parts_of(slots@[k].kind, all)
                        && slots@[k].mark == mark_of(slots@[k].kind, routing_mark),
                forall|a: int, b: int|
                    0 <= a < b < i ==> (#[trigger] slots@[a]).tag@ != (#[trigger] slots@[b]).tag@,
            decreases n - i,
        {
            let tag: &str = configs[i].tag();
            if config_tag_among(configs, i, tag) {
                return Err(DuplicateTag { tag: tag.to_owned() });
            }
            let ghost before = slots@;
            let kind: OutboundKind = outbound_kind(&configs[i], net);
            slots.push(slot_for(tag, kind, Some(i), all, routing_mark));
            proof {
                assert forall|a: int, b: int| 0 <= a < b < i + 1 implies (
                #[trigger] slots@[a]).tag@ != (#[trigger] slots@[b]).tag@ by {
                    if b == i {
                        assert(before[a].tag@ == configs@[a].tag_of());
                        assert(configs@[a].tag_of() != configs@[i as int].tag_of());
                    } else {
                        assert(before[a].tag@ != before[b].tag@);
                    }
                }
            }
            i = i + 1;
        }
        let ghost before = slots@;
        if !config_tag_among(configs, n, DIRECT) {
            slots.push(slot_for(DIRECT, OutboundKind::Direct, None, all, routing_mark));
            proof {
                assert forall|a: int, b: int| 0 <= a < b < slots@.len() implies (
                #[trigger] slots@[a]).tag@ != (#[trigger] slots@[b]).tag@ by {
                    if b == n {
                        assert(before[a].tag@ == configs@[a].tag_of());
                    } else {
                        assert(before[a].tag@ != before[b].tag@);
                    }
                }
                lemma_slot_of(slots@, slots@.len() as int, DIRECT@);
                assert(slots@[n as int].tag@ == DIRECT@);
            }
        } else {
            proof {
                let k = choose|k: int|
                    0 <= k < n && (#[trigger] configs@[k]).tag_of() == DIRECT@;
                assert(slots@[k].tag@ == DIRECT@);
                lemma_slot_of(slots@, slots@.len() as int, DIRECT@);
            }
        }
        Ok(OutboundManager { slots })
    }

    /// The place of the outbound of a tag.
    pub fn get(&self, tag: &str) -> (r: Option<usize>)
        ensures
            match r {
                Some(i) => i < self.slots().len() && i == slot_of(
                    self.slots(),
                    self.slots().len() as int,
                    tag@,
                ) && self.slots()[i as int].tag@ == tag@,
                None => slot_of(self.slots(), self.slots().len() as int, tag@) == -1,
            },
    {
        let mut n: usize = self.slots.len();
        while n > 0
            invariant
                n <= self.slots@.len(),
                slot_of(self.slots@, self.slots@.len() as int, tag@) == slot_of(
                    self.slots@,
                    n as int,
                    tag@,
                ),
            decreases n,
        {
            if text::same_text(self.slots[n - 1].tag.as_str(), tag) {
                return Some(n - 1);
            }
            n = n - 1;
        }
        None
    }

    /// What the outbounds report, in the order of their names.
    pub fn statuses(&self, reported: Vec<OutboundStatus>) -> (r: Vec<OutboundStatus>)
        requires
            reported@.len() == self.slots().len(),
        ensures
            r@.to_multiset() == reported@.to_multiset(),
            by_name(r@),
    {
        sort_by_name(reported)
    }

    /// What the outbound of a tag reports.
    pub fn status<'a>(&self, tag: &str, reported: &'a Vec<OutboundStatus>) -> (r: Option<
        &'a OutboundStatus,
    >)
        requires
            reported@.len() == self.slots().len(),
        ensures
            ({
                let i = slot_of(self.slots(), self.slots().len() as int, tag@);
                match r {
                    Some(s) => i >= 0 && *s == reported@[i],
                    None => i == -1,
                }
            }),
    {
        match self.get(tag) {
            Some(i) => Some(&reported[i]),
            None => None,
        }
    }

    /// The group of a tag, which is then to be told what to use.
    pub fn select(&self, tag: &str) -> (r: Result<usize, String>)
        ensures
            ({
                let i = slot_of(self.slots(), self.slots().len() as int, tag@);
                match r {
                    Ok(k) => i >= 0 && k == i,
                    Err(e) => i == -1 && e@ == "outbound '"@ + tag@ + "' not found"@,
                }
            }),
    {
        match self.get(tag) {
            Some(i) => Ok(i),
            None => Err(dispatcher::missing_outbound(tag)),
        }
    }

    /// All outbounds.
    pub fn as_map(&self) -> (r: &Vec<OutboundSlot>)
        ensures
            r@ == self.slots(),
    {
        &self.slots
    }

    /// The tags and the places of all outbounds.
    pub fn as_registry(&self) -> (r: Vec<(String, usize)>)
        ensures
            r@.len() == self.slots().len(),
            forall|i: int|
                0 <= i < r@.len() ==> (#[trigger] r@[i]).0@ == self.slots()[i].tag@ && r@[i].1 == i,
    {
        let mut r: Vec<(String, usize)> = Vec::new();
        let mut i: usize = 0;
        while i < self.slots.len()
            invariant
                i <= self.slots@.len(),
                r@.len() == i,
                forall|k: int|
                    0 <= k < i ==> (#[trigger] r@[k]).0@ == self.slots@[k].tag@ && r@[k].1 == k,
            decreases self.slots@.len() - i,
        {
            r.push((self.slots[i].tag.as_str().to_owned(), i));
            i = i + 1;
        }
        r
    }

    /// The number of outbounds.
    pub fn len(&self) -> (r: usize)
        ensures
            r == self.slots().len(),
    {
        self.slots.len()
    }

    /// Whether there are none.
    pub fn is_empty(&self) -> (r: bool)
        ensures
            r == (self.slots().len() == 0),
    {
        self.slots.len() == 0
    }
}

proof fn lemma_slot_of(slots: Seq<OutboundSlot>, n: int, tag: Seq<char>)
    requires
        0 <= n <= slots.len(),
    ensures
        -1 <= slot_of(slots, n, tag) < n,
        slot_of(slots, n, tag) >= 0 ==> slots[slot_of(slots, n, tag)].tag@ == tag,
        slot_of(slots, n, tag) == -1 ==> forall|i: int|
            0 <= i < n ==> (#[trigger] slots[i]).tag@ != tag,
    decreases n,
{
    if n > 0 {
        lemma_slot_of(slots, n - 1, tag);
    }
}

/// Every outbound is found under its tag.
pub proof fn law_outbounds_are_found(m: OutboundManager, i: int)
    requires
        m.wf(),
        0 <= i < m.slots().len(),
    ensures
        slot_of(m.slots(), m.slots().len() as int, m.slots()[i].tag@) == i,
{
    lemma_slot_of(m.slots(), m.slots().len() as int, m.slots()[i].tag@);
    let k = slot_of(m.slots(), m.slots().len() as int, m.slots()[i].tag@);
    if k < i {
        assert(m.slots()[k].tag@ != m.slots()[i].tag@);
    } else if i < k {
        assert(m.slots()[i].tag@ != m.slots()[k].tag@);
    }
}

/// Puts statuses in the order of their names.
fn sort_by_name(statuses: Vec<OutboundStatus>) -> (r: Vec<OutboundStatus>)
    ensures
        r@.to_multiset() == statuses@.to_multiset(),
        by_name(r@),
{
    broadcast use vstd::seq_lib::group_to_multiset_ensures;

    let mut left: Vec<OutboundStatus> = statuses;
    let mut r: Vec<OutboundStatus> = Vec::new();
    let ghost all = left@.to_multiset();
    proof {
        assert(r@.to_multiset().add(left@.to_multiset()) =~= all);
    }
    while left.len() > 0
        invariant
            by_name(r@),
            r@.to_multiset().add(left@.to_multiset()) =~= all,
        decreases left@.len(),
    {
        broadcast use vstd::seq_lib::group_to_multiset_ensures;

        let ghost whole = left@;
        let s: OutboundStatus = left.remove(0);
        let ghost before = r@;
        let mut i: usize = r.len();
        while i > 0 && !text::in_order(r[i - 1].name.as_str(), s.name.as_str())
            invariant
                i <= r@.len(),
                by_name(r@),
                forall|k: int|
                    i <= k < r@.len() ==> !text::not_after((#[trigger] r@[k]).name@, s.name@),
            decreases i,
        {
            i = i - 1;
        }
        let ghost x = s;
        r.insert(i, s);
        proof {
            let a = before;
            let b = r@;
            assert(b == a.insert(i as int, x));
            assert forall|p: int, q: int| 0 <= p < q < b.len() implies text::not_after(
                (#[trigger] b[p]).name@,
                (#[trigger] b[q]).name@,
            ) by {
                let p0 = if p < i { p } else { p - 1 };
                let q0 = if q < i { q } else { q - 1 };
                if p != i && q != i {
                    assert(b[p] == a[p0] && b[q] == a[q0]);
                    assert(text::not_after(a[p0].name@, a[q0].name@));
                } else if q == i {
                    assert(b[p] == a[p]);
                    assert(text::not_after(a[i - 1].name@, x.name@));
                    if p < i - 1 {
                        assert(text::not_after(a[p].name@, a[i - 1].name@));
                        text::lemma_not_after_transitive(a[p].name@, a[i - 1].name@, x.name@);
                    }
                } else {
                    assert(b[q] == a[q - 1]);
                    assert(!text::not_after(a[q - 1].name@, x.name@));
                    text::lemma_not_after_total(a[q - 1].name@, x.name@);
                }
            }
            assert(b.remove(i as int) =~= a);
            assert(b[i as int] == x);
            assert(b.contains(x));
            assert(b.to_multiset() =~= a.to_multiset().insert(x));
            assert(whole[0] == x);
            assert(whole.contains(x));
            assert(whole.remove(0).to_multiset() =~= whole.to_multiset().remove(x));
            assert(whole.to_multiset() =~= left@.to_multiset().insert(x));
        }
    }
    assert(left@ =~= Seq::<OutboundStatus>::empty());
    assert(r@.to_multiset() =~= all);
    r
}

/// Which outbound is handed what: a direct one the resolver, a selector the
/// places where its choice is kept and the providers, and all others nothing.
/// Those that let nothing through and groups open no sockets, and so carry no
/// mark; all others carry it.
pub proof fn law_who_is_handed_what(kind: OutboundKind, all: OutboundParts, mark: u32)
    ensures
        ({
            let p = parts_of(kind, all);
            &&& p.resolver <==> all.resolver && kind is Direct
            &&& p.cache_writer <==> all.cache_writer && kind is Selector
            &&& p.cache_reader <==> all.cache_reader && kind is Selector
            &&& p.providers <==> all.providers && kind is Selector
            &&& mark_of(kind, mark) == (if kind is Block || kind is Selector || kind is UrlTest {
                None
            } else {
                Some(mark)
            })
        }),
{
}

/// What settings are built as: each protocol as itself. Without the protocols
/// that go over the network, those let nothing through.
pub proof fn law_kinds_of_settings(c: OutboundConfig)
    ensures
        kind_of(c, true) is Direct <==> c is Direct,
        kind_of(c, true) is Block <==> c is Block,
        kind_of(c, true) is Socks <==> c is Socks,
        kind_of(c, true) is Selector <==> c is Selector,
        kind_of(c, true) is UrlTest <==> c is UrlTest,
        kind_of(c, true) is Shadowsocks <==> c is Shadowsocks,
        kind_of(c, true) is Trojan <==> c is Trojan,
        kind_of(c, true) is Vless <==> c is Vless,
        kind_of(c, true) is Vmess <==> c is Vmess,
        kind_of(c, true) is Hysteria2 <==> c is Hysteria2,
        kind_of(c, true) is Tuic <==> c is Tuic,
        kind_of(c, true) is AnyTls <==> c is AnyTls,
        kind_of(c, false) == (if c is Direct || c is Block || c is Socks || c is Selector
            || c is UrlTest {
            kind_of(c, true)
        } else {
            OutboundKind::Block
        }),
{
}

proof fn lemma_first_duplicate(configs: Seq<OutboundConfig>, i: int)
    requires
        0 <= i <= configs.len(),
    ensures
        ({
            let k = first_duplicate(configs, i);
            &&& i <= k <= configs.len()
            &&& k < configs.len() ==> tag_among(configs, k, configs[k].tag_of())
            &&& forall|j: int|
                i <= j < k ==> !tag_among(configs, j, (#[trigger] configs[j]).tag_of())
        }),
    decreases configs.len() - i,
{
    if i < configs.len() {
        if !tag_among(configs, i, configs[i].tag_of()) {
            lemma_first_duplicate(configs, i + 1);
        }
    }
}

/// Settings are refused exactly if two of them have the same tag, and then with
/// the tag of the first one that has that of an earlier one.
pub proof fn law_tags_are_unique(configs: Seq<OutboundConfig>)
    ensures
        ({
            let k = first_duplicate(configs, 0);
            &&& k == configs.len() <==> forall|i: int, j: int|
                0 <= i < j < configs.len() ==> (#[trigger] configs[i]).tag_of() != (
                #[trigger] configs[j]).tag_of()
            &&& k < configs.len() ==> exists|i: int|
                0 <= i < k && (#[trigger] configs[i]).tag_of() == configs[k].tag_of()
            &&& forall|i: int, j: int|
                0 <= i < j < k ==> (#[trigger] configs[i]).tag_of() != (
                #[trigger] configs[j]).tag_of()
        }),
{
    lemma_first_duplicate(configs, 0);
    let k = first_duplicate(configs, 0);
    assert forall|i: int, j: int| 0 <= i < j < k implies (#[trigger] configs[i]).tag_of() != (
    #[trigger] configs[j]).tag_of() by {
        assert(!tag_among(configs, j, configs[j].tag_of()));
    }
    if k < configs.len() {
        let i = choose|i: int| 0 <= i < k && (#[trigger] configs[i]).tag_of() == configs[k].tag_of();
        assert(configs[i].tag_of() == configs[k].tag_of());
    }
}

} // verus!
