use vstd::prelude::*;
use crate::keyspace::{inner_distinct, inner_entries, Keyspace};
use crate::value::{unique_keys, as_map, entries_remove, entries_set, ResultValue, ResultView, Value, ValueMap, ValueView};

verus! {

/// A request from a client.
#[derive(Debug)]
pub enum Command {
    Get(String),
    Put(String, Value),
    Del(String),
    MapGet(String, String),
    MapSet(String, String, Value),
    MapDel(String, String),
    GetAll,
    NoOp,
}

impl Command {
    /// The command's name, as it appears in logs.
    pub fn name(&self) -> (r: &'static str)
        ensures
            r@ == match self {
                Command::Get(_) => "Get"@,
                Command::Put(_, _) => "Set"@,
                Command::Del(_) => "Del"@,
                Command::MapGet(_, _) => "MapGet"@,
                Command::MapSet(_, _, _) => "MapSet"@,
                Command::MapDel(_, _) => "MapDel"@,
                Command::GetAll => "GetAll"@,
                Command::NoOp => "None"@,
            },
    {
        match self {
            Command::Get(_) => "Get",
            Command::Put(_, _) => "Set",
            Command::Del(_) => "Del",
            Command::MapGet(_, _) => "MapGet",
            Command::MapSet(_, _, _) => "MapSet",
            Command::MapDel(_, _) => "MapDel",
            Command::GetAll => "GetAll",
            Command::NoOp => "None",
        }
    }
}

/// What a command sends back: a reply value, the whole keyspace, or nothing.
#[derive(Debug)]
pub enum Reply {
    Answer(ResultValue),
    Snapshot(ValueMap),
    Silent,
}

pub ghost enum ReplyView {
    Answer(ResultView),
    Snapshot(Map<Seq<char>, ValueView>),
    Silent,
}

impl Reply {
    pub open spec fn view(&self) -> ReplyView {
        match self {
            Reply::Answer(r) => ReplyView::Answer(r@),
            Reply::Snapshot(m) => ReplyView::Snapshot(as_map(m@)),
            Reply::Silent => ReplyView::Silent,
        }
    }
}

/// `OkValue(v)` for a value that is there, `Nil` for one that is not.
pub open spec fn found(present: bool, v: ValueView) -> ReplyView {
    if present {
        ReplyView::Answer(ResultView::OkValue(v))
    } else {
        ReplyView::Answer(ResultView::Absent)
    }
}

/// `Done` on success, `Nil` on failure.
pub open spec fn done(ok: bool) -> ReplyView {
    if ok {
        ReplyView::Answer(ResultView::Done)
    } else {
        ReplyView::Answer(ResultView::Absent)
    }
}

fn answer_found(v: Option<Value>) -> (r: Reply)
    ensures
        r@ == found(v is Some, v->0@),
{
    match v {
        Some(v) => Reply::Answer(ResultValue::OkValue(v)),
        None => Reply::Answer(ResultValue::Nil),
    }
}

fn answer_done(ok: bool) -> (r: Reply)
    ensures
        r@ == done(ok),
{
    if ok {
        Reply::Answer(ResultValue::Done)
    } else {
        Reply::Answer(ResultValue::Nil)
    }
}

pub ghost enum CommandView {
    Get(Seq<char>),
    Put(Seq<char>, ValueView),
    Del(Seq<char>),
    MapGet(Seq<char>, Seq<char>),
    MapSet(Seq<char>, Seq<char>, ValueView),
    MapDel(Seq<char>, Seq<char>),
    GetAll,
    NoOp,
}

impl Command {
    pub open spec fn view(&self) -> CommandView {
        match self {
            Command::Get(k) => CommandView::Get(k@),
            Command::Put(k, v) => CommandView::Put(k@, v@),
            Command::Del(k) => CommandView::Del(k@),
            Command::MapGet(m, k) => CommandView::MapGet(m@, k@),
            Command::MapSet(m, k, v) => CommandView::MapSet(m@, k@, v@),
            Command::MapDel(m, k) => CommandView::MapDel(m@, k@),
            Command::GetAll => CommandView::GetAll,
            Command::NoOp => CommandView::NoOp,
        }
    }
}

/// What a command does to a keyspace that holds `ks`, with a cap of `cap`
/// keys: the keyspace after it, and its reply.
pub open spec fn effect(ks: Map<Seq<char>, ValueView>, cap: u64, c: CommandView) -> (
    Map<Seq<char>, ValueView>,
    ReplyView,
) {
    match c {
        CommandView::Get(k) => (ks, found(ks.contains_key(k), ks[k])),
        CommandView::Put(k, v) => {
            let ok = ks.contains_key(k) || ks.dom().len() < cap;
            (
                if ok {
                    ks.insert(k, v)
                } else {
                    ks
                },
                done(ok),
            )
        },
        CommandView::Del(k) => (ks.remove(k), done(ks.contains_key(k))),
        CommandView::MapGet(m, k) => {
            let inner = inner_entries(ks, m);
            let present = inner is Some && as_map(inner->0).contains_key(k);
            (ks, found(present, as_map(inner->0)[k]))
        },
        CommandView::MapSet(m, k, v) => {
            let inner = inner_entries(ks, m);
            (
                if inner is Some {
                    ks.insert(m, ValueView::Dict(entries_set(inner->0, k, v)))
                } else {
                    ks
                },
                done(inner is Some),
            )
        },
        CommandView::MapDel(m, k) => {
            let inner = inner_entries(ks, m);
            let present = inner is Some && as_map(inner->0).contains_key(k);
            (
                if present {
                    ks.insert(m, ValueView::Dict(entries_remove(inner->0, k)))
                } else {
                    ks
                },
                done(present),
            )
        },
        CommandView::GetAll => (ks, ReplyView::Snapshot(ks)),
        CommandView::NoOp => (ks, ReplyView::Silent),
    }
}

/// Whether `c` may change what is stored under the top-level key `k`.
pub open spec fn touches(c: CommandView, k: Seq<char>) -> bool {
    match c {
        CommandView::Put(k2, _) => k2 == k,
        CommandView::Del(k2) => k2 == k,
        CommandView::MapSet(m, _, _) => m == k,
        CommandView::MapDel(m, _) => m == k,
        _ => false,
    }
}

/// After a put of `k` succeeds, a get of `k` answers with the value put.
pub proof fn lemma_put_then_get(
    ks: Map<Seq<char>, ValueView>,
    cap: u64,
    k: Seq<char>,
    v: ValueView,
)
    requires
        effect(ks, cap, CommandView::Put(k, v)).1 == done(true),
    ensures
        effect(effect(ks, cap, CommandView::Put(k, v)).0, cap, CommandView::Get(k)).1
            == found(true, v),
{
}

/// A command that does not name `k` as its top-level key leaves what is
/// stored under `k` as it was; so a get of `k` keeps answering with the last
/// value put until the next command on `k`.
pub proof fn lemma_untouched_key(
    ks: Map<Seq<char>, ValueView>,
    cap: u64,
    c: CommandView,
    k: Seq<char>,
)
    requires
        !touches(c, k),
    ensures
        effect(ks, cap, c).0.contains_key(k) == ks.contains_key(k),
        ks.contains_key(k) ==> effect(ks, cap, c).0[k] == ks[k],
{
}

/// The keyspace after running the commands `cs` in order.
pub open spec fn run(ks: Map<Seq<char>, ValueView>, cap: u64, cs: Seq<CommandView>) -> Map<
    Seq<char>,
    ValueView,
>
    decreases cs.len(),
{
    if cs.len() == 0 {
        ks
    } else {
        effect(run(ks, cap, cs.drop_last()), cap, cs.last()).0
    }
}

/// After a put of `k` to `v` succeeds, a get of `k` answers with `v` after
/// any run of commands of which none names `k` as its top-level key.
pub proof fn lemma_get_sees_last_put(
    ks: Map<Seq<char>, ValueView>,
    cap: u64,
    k: Seq<char>,
    v: ValueView,
    cs: Seq<CommandView>,
)
    requires
        effect(ks, cap, CommandView::Put(k, v)).1 == done(true),
        forall|i: int| 0 <= i < cs.len() ==> !touches(#[trigger] cs[i], k),
    ensures
        effect(run(effect(ks, cap, CommandView::Put(k, v)).0, cap, cs), cap, CommandView::Get(k)).1
            == found(true, v),
    decreases cs.len(),
{
    let ks1 = effect(ks, cap, CommandView::Put(k, v)).0;
    if cs.len() > 0 {
        let d = cs.drop_last();
        assert forall|i: int| 0 <= i < d.len() implies !touches(#[trigger] d[i], k) by {
            assert(d[i] == cs[i]);
        }
        lemma_get_sees_last_put(ks, cap, k, v, d);
        assert(!touches(cs[cs.len() - 1], k));
        lemma_untouched_key(run(ks1, cap, d), cap, cs.last(), k);
    }
}

/// After a delete of `k`, a get of `k` answers with nothing.
pub proof fn lemma_del_then_get(
    ks: Map<Seq<char>, ValueView>,
    cap: u64,
    k: Seq<char>,
)
    ensures
        effect(effect(ks, cap, CommandView::Del(k)).0, cap, CommandView::Get(k)).1
            == ReplyView::Answer(ResultView::Absent),
{
}

/// When `m` holds a map, a map-get of `k` after a map-set of `k` to `v`
/// answers with `v`.
pub proof fn lemma_map_set_then_map_get(
    ks: Map<Seq<char>, ValueView>,
    cap: u64,
    m: Seq<char>,
    k: Seq<char>,
    v: ValueView,
)
    requires
        inner_entries(ks, m) is Some,
    ensures
        effect(
            effect(ks, cap, CommandView::MapSet(m, k, v)).0,
            cap,
            CommandView::MapGet(m, k),
        ).1 == found(true, v),
{
    crate::value::lemma_set_then_lookup(inner_entries(ks, m)->0, k, v);
    let ks1 = effect(ks, cap, CommandView::MapSet(m, k, v)).0;
    assert(inner_entries(ks1, m) == Some(entries_set(inner_entries(ks, m)->0, k, v)));
}

/// When `m` holds a map with distinct keys, a map-delete of `k` that
/// succeeds leaves the map with every entry but `k`, and a later map-get of
/// `k` answers with nothing.
pub proof fn lemma_map_del_then_map_get(
    ks: Map<Seq<char>, ValueView>,
    cap: u64,
    m: Seq<char>,
    k: Seq<char>,
)
    requires
        inner_entries(ks, m) is Some,
        unique_keys(inner_entries(ks, m)->0),
        as_map(inner_entries(ks, m)->0).contains_key(k),
    ensures
        effect(ks, cap, CommandView::MapDel(m, k)).1 == done(true),
        as_map(inner_entries(effect(ks, cap, CommandView::MapDel(m, k)).0, m)->0) == as_map(
            inner_entries(ks, m)->0,
        ).remove(k),
        effect(effect(ks, cap, CommandView::MapDel(m, k)).0, cap, CommandView::MapGet(m, k)).1
            == ReplyView::Answer(ResultView::Absent),
{
    let es = inner_entries(ks, m)->0;
    crate::value::lemma_entries_remove(es, k);
    let ks1 = effect(ks, cap, CommandView::MapDel(m, k)).0;
    assert(inner_entries(ks1, m) == Some(entries_remove(es, k)));
}

/// The map commands on a key that holds no map answer with nothing and
/// change nothing.
pub proof fn lemma_map_commands_need_a_map(
    ks: Map<Seq<char>, ValueView>,
    cap: u64,
    m: Seq<char>,
    k: Seq<char>,
    v: ValueView,
)
    requires
        !(ks.contains_key(m) && ks[m] is Dict),
    ensures
        effect(ks, cap, CommandView::MapGet(m, k)) == (ks, ReplyView::Answer(ResultView::Absent)),
        effect(ks, cap, CommandView::MapSet(m, k, v)) == (ks, ReplyView::Answer(ResultView::Absent)),
        effect(ks, cap, CommandView::MapDel(m, k)) == (ks, ReplyView::Answer(ResultView::Absent)),
{
}

/// Once the keyspace holds as many keys as its cap, a put of a new key
/// answers with nothing and inserts nothing.
pub proof fn lemma_put_over_cap(
    ks: Map<Seq<char>, ValueView>,
    cap: u64,
    k: Seq<char>,
    v: ValueView,
)
    requires
        ks.dom().len() >= cap,
        !ks.contains_key(k),
    ensures
        effect(ks, cap, CommandView::Put(k, v)) == (ks, ReplyView::Answer(ResultView::Absent)),
{
}

/// Runs one command against the keyspace.
pub fn execute(ks: &mut Keyspace, cmd: Command) -> (r: Reply)
    ensures
        final(ks).cap() == old(ks).cap(),
        (final(ks)@, r@) == effect(old(ks)@, old(ks).cap(), cmd@),
        match cmd@ {
            CommandView::MapGet(m, _) => inner_distinct(old(ks)@, m),
            CommandView::MapSet(m, _, _) => inner_distinct(old(ks)@, m),
            CommandView::MapDel(m, _) => inner_distinct(old(ks)@, m),
            _ => true,
        },
        r matches Reply::Snapshot(m) ==> unique_keys(m@),
{
    match cmd {
        Command::Get(k) => answer_found(ks.get(&k)),
        Command::Put(k, v) => answer_done(ks.insert(k, v)),
        Command::Del(k) => answer_done(ks.remove(&k)),
        Command::MapGet(m, k) => answer_found(ks.map_get(&m, &k)),
        Command::MapSet(m, k, v) => answer_done(ks.map_set(&m, k, v)),
        Command::MapDel(m, k) => answer_done(ks.map_del(&m, &k)),
        Command::GetAll => Reply::Snapshot(ks.snapshot()),
        Command::NoOp => Reply::Silent,
    }
}

} // verus!
