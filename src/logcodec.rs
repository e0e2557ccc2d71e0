//! The byte form in which the operation log is kept in the store, so that a
//! repository opened again on the same store continues where it stopped.

use vstd::prelude::*;
use crate::encoding::{le_bytes, lemma_le_bytes_len, push_all, push_le, push_length_prefixed};
use crate::object::{ids_bytes, lemma_id_len, string_field, utf8, ObjectId};
use crate::oplog::{
    CommandIntent, IndexState, LogEntry, MergeStrategy, Operation, RepositoryState, UserMetadata,
};
use crate::codec::{
    at, ids_field, lemma_at_join, lemma_at_same, lemma_at_split, lemma_pow256_8, read_count, read_id, read_index,
    read_le, read_parents, read_string,
};
use crate::storage::{Reference, ReferenceTarget};

verus! {

pub open spec fn flag(b: bool) -> Seq<u8> {
    if b {
        seq![1u8]
    } else {
        seq![0u8]
    }
}

pub open spec fn opt_id_bytes(h: Option<ObjectId>) -> Seq<u8> {
    match h {
        None => flag(false),
        Some(id) => flag(true) + id@,
    }
}

pub open spec fn opt_string_bytes(s: Option<String>) -> Seq<u8> {
    match s {
        None => flag(false),
        Some(x) => flag(true) + string_field(&x),
    }
}

pub open spec fn target_bytes(t: ReferenceTarget) -> Seq<u8> {
    match t {
        ReferenceTarget::Direct(id) => flag(false) + id@,
        ReferenceTarget::Symbolic(s) => flag(true) + string_field(&s),
    }
}

pub open spec fn reference_bytes(r: Reference) -> Seq<u8> {
    string_field(&r.name) + target_bytes(r.target)
}

pub open spec fn references_bytes(s: Seq<Reference>) -> Seq<u8>
    decreases s.len(),
{
    if s.len() == 0 {
        Seq::empty()
    } else {
        references_bytes(s.drop_last()) + reference_bytes(s.last())
    }
}

pub open spec fn reference_list(s: Seq<Reference>) -> Seq<u8> {
    le_bytes(s.len(), 8) + references_bytes(s)
}

pub open spec fn pairs_bytes(s: Seq<(String, ObjectId)>) -> Seq<u8>
    decreases s.len(),
{
    if s.len() == 0 {
        Seq::empty()
    } else {
        pairs_bytes(s.drop_last()) + string_field(&s.last().0) + s.last().1@
    }
}

pub open spec fn index_bytes(i: Option<IndexState>) -> Seq<u8> {
    match i {
        None => flag(false),
        Some(x) => flag(true) + le_bytes(x.entries@.len(), 8) + pairs_bytes(x.entries@),
    }
}

pub open spec fn state_bytes(s: RepositoryState) -> Seq<u8> {
    opt_id_bytes(s.head) + reference_list(s.refs@) + index_bytes(s.index_state)
}

pub open spec fn strings_bytes(s: Seq<String>) -> Seq<u8>
    decreases s.len(),
{
    if s.len() == 0 {
        Seq::empty()
    } else {
        strings_bytes(s.drop_last()) + string_field(&s.last())
    }
}

pub open spec fn intent_bytes(c: CommandIntent) -> Seq<u8> {
    string_field(&c.command) + le_bytes(c.args@.len(), 8) + strings_bytes(c.args@) + string_field(
        &c.working_directory,
    )
}

pub open spec fn metadata_bytes(m: UserMetadata) -> Seq<u8> {
    opt_string_bytes(m.user_name) + opt_string_bytes(m.user_email) + opt_string_bytes(m.session_id)
}

pub open spec fn strategy_index(s: MergeStrategy) -> u8 {
    match s {
        MergeStrategy::ThreeWay => 0,
        MergeStrategy::Ours => 1,
        MergeStrategy::Theirs => 2,
        MergeStrategy::Recursive => 3,
    }
}

pub open spec fn operation_bytes(op: Operation) -> Seq<u8> {
    match op {
        Operation::Commit { before_head, after_head, tree, message, parents } => seq![0u8] + opt_id_bytes(
            before_head,
        ) + after_head@ + tree@ + string_field(&message) + le_bytes(parents@.len(), 8) + ids_bytes(parents@),
        Operation::CreateBranch { name, target, before_refs } => seq![1u8] + string_field(&name) + target@
            + reference_list(before_refs@),
        Operation::DeleteBranch { name, deleted_target, before_refs } => seq![2u8] + string_field(&name)
            + deleted_target@ + reference_list(before_refs@),
        Operation::SwitchBranch { from_branch, to_branch, before_head, after_head } => seq![3u8]
            + opt_string_bytes(from_branch) + string_field(&to_branch) + before_head@ + after_head@,
        Operation::Merge { branch, before_head, after_head, strategy } => seq![4u8] + string_field(&branch)
            + before_head@ + after_head@ + seq![strategy_index(strategy)],
    }
}

pub open spec fn two_to_64() -> nat {
    0x1_0000_0000_0000_0000
}

pub open spec fn log_entry_bytes(e: LogEntry) -> Seq<u8> {
    le_bytes((e.id as nat) % two_to_64(), 8) + le_bytes((e.id as nat) / two_to_64(), 8) + le_bytes(
        (e.timestamp as u64) as nat,
        8,
    ) + operation_bytes(e.operation) + state_bytes(e.before_state) + state_bytes(e.after_state)
        + intent_bytes(e.command_intent) + metadata_bytes(e.user_metadata)
}

pub open spec fn log_entries_bytes(s: Seq<LogEntry>) -> Seq<u8>
    decreases s.len(),
{
    if s.len() == 0 {
        Seq::empty()
    } else {
        log_entries_bytes(s.drop_last()) + log_entry_bytes(s.last())
    }
}

/// The stored form of a log: the cursor, the number of entries, then each
/// entry in order.
pub open spec fn log_bytes(cursor: nat, entries: Seq<LogEntry>) -> Seq<u8> {
    le_bytes(cursor, 8) + le_bytes(entries.len(), 8) + log_entries_bytes(entries)
}

fn push_string(out: &mut Vec<u8>, s: &String)
    ensures
        final(out)@ == old(out)@ + string_field(s),
{
    push_length_prefixed(out, s.as_str().as_bytes());
}

fn push_id(out: &mut Vec<u8>, id: &ObjectId)
    ensures
        final(out)@ == old(out)@ + id@,
{
    push_all(out, id.as_bytes().as_slice());
}

fn push_flag(out: &mut Vec<u8>, b: bool)
    ensures
        final(out)@ == old(out)@ + flag(b),
{
    out.push(if b { 1u8 } else { 0u8 });
}

fn push_opt_id(out: &mut Vec<u8>, h: &Option<ObjectId>)
    ensures
        final(out)@ == old(out)@ + opt_id_bytes(*h),
{
    match h {
        None => push_flag(out, false),
        Some(id) => {
            push_flag(out, true);
            push_id(out, id);
        },
    }
}

fn push_opt_string(out: &mut Vec<u8>, s: &Option<String>)
    ensures
        final(out)@ == old(out)@ + opt_string_bytes(*s),
{
    match s {
        None => push_flag(out, false),
        Some(x) => {
            push_flag(out, true);
            push_string(out, x);
        },
    }
}

fn push_reference_list(out: &mut Vec<u8>, refs: &Vec<Reference>)
    ensures
        final(out)@ == old(out)@ + reference_list(refs@),
{
    let ghost start = out@;
    push_le(out, refs.len() as u64, 8);
    let ghost head = out@;
    let mut i: usize = 0;
    while i < refs.len()
        invariant
            i <= refs@.len(),
            out@ == head + references_bytes(refs@.subrange(0, i as int)),
        decreases refs@.len() - i,
    {
        let ghost before = out@;
        let r = &refs[i];
        push_string(out, &r.name);
        match &r.target {
            ReferenceTarget::Direct(id) => {
                push_flag(out, false);
                push_id(out, id);
            },
            ReferenceTarget::Symbolic(s) => {
                push_flag(out, true);
                push_string(out, s);
            },
        }
        proof {
            let next = refs@.subrange(0, i + 1);
            assert(next.drop_last() == refs@.subrange(0, i as int));
            assert(out@ == before + reference_bytes(*r));
        }
        i = i + 1;
    }
    assert(refs@.subrange(0, refs@.len() as int) == refs@);
    assert(out@ == start + reference_list(refs@));
}

fn push_ids(out: &mut Vec<u8>, ids: &Vec<ObjectId>)
    ensures
        final(out)@ == old(out)@ + le_bytes(ids@.len(), 8) + ids_bytes(ids@),
{
    push_le(out, ids.len() as u64, 8);
    let ghost head = out@;
    let mut i: usize = 0;
    while i < ids.len()
        invariant
            i <= ids@.len(),
            out@ == head + ids_bytes(ids@.subrange(0, i as int)),
        decreases ids@.len() - i,
    {
        push_id(out, &ids[i]);
        proof {
            let next = ids@.subrange(0, i + 1);
            assert(next.drop_last() == ids@.subrange(0, i as int));
        }
        i = i + 1;
    }
    assert(ids@.subrange(0, ids@.len() as int) == ids@);
}

fn push_state(out: &mut Vec<u8>, s: &RepositoryState)
    ensures
        final(out)@ == old(out)@ + state_bytes(*s),
{
    let ghost start = out@;
    push_opt_id(out, &s.head);
    push_reference_list(out, &s.refs);
    match &s.index_state {
        None => push_flag(out, false),
        Some(ix) => {
            push_flag(out, true);
            push_le(out, ix.entries.len() as u64, 8);
            let ghost head = out@;
            let mut i: usize = 0;
            while i < ix.entries.len()
                invariant
                    i <= ix.entries@.len(),
                    out@ == head + pairs_bytes(ix.entries@.subrange(0, i as int)),
                decreases ix.entries@.len() - i,
            {
                let ghost before = out@;
                push_string(out, &ix.entries[i].0);
                push_id(out, &ix.entries[i].1);
                proof {
                    let next = ix.entries@.subrange(0, i + 1);
                    assert(next.drop_last() == ix.entries@.subrange(0, i as int));
                }
                i = i + 1;
            }
            assert(ix.entries@.subrange(0, ix.entries@.len() as int) == ix.entries@);
        },
    }
    assert(out@ == start + state_bytes(*s));
}

fn push_operation(out: &mut Vec<u8>, op: &Operation)
    ensures
        final(out)@ == old(out)@ + operation_bytes(*op),
{
    let ghost start = out@;
    match op {
        Operation::Commit { before_head, after_head, tree, message, parents } => {
            out.push(0u8);
            push_opt_id(out, before_head);
            push_id(out, after_head);
            push_id(out, tree);
            push_string(out, message);
            push_ids(out, parents);
        },
        Operation::CreateBranch { name, target, before_refs } => {
            out.push(1u8);
            push_string(out, name);
            push_id(out, target);
            push_reference_list(out, before_refs);
        },
        Operation::DeleteBranch { name, deleted_target, before_refs } => {
            out.push(2u8);
            push_string(out, name);
            push_id(out, deleted_target);
            push_reference_list(out, before_refs);
        },
        Operation::SwitchBranch { from_branch, to_branch, before_head, after_head } => {
            out.push(3u8);
            push_opt_string(out, from_branch);
            push_string(out, to_branch);
            push_id(out, before_head);
            push_id(out, after_head);
        },
        Operation::Merge { branch, before_head, after_head, strategy } => {
            out.push(4u8);
            push_string(out, branch);
            push_id(out, before_head);
            push_id(out, after_head);
            let s: u8 = match strategy {
                MergeStrategy::ThreeWay => 0,
                MergeStrategy::Ours => 1,
                MergeStrategy::Theirs => 2,
                MergeStrategy::Recursive => 3,
            };
            out.push(s);
        },
    }
    assert(out@ == start + operation_bytes(*op));
}

fn push_intent(out: &mut Vec<u8>, c: &CommandIntent)
    ensures
        final(out)@ == old(out)@ + intent_bytes(*c),
{
    let ghost start = out@;
    push_string(out, &c.command);
    push_le(out, c.args.len() as u64, 8);
    let ghost head = out@;
    let mut i: usize = 0;
    while i < c.args.len()
        invariant
            i <= c.args@.len(),
            out@ == head + strings_bytes(c.args@.subrange(0, i as int)),
        decreases c.args@.len() - i,
    {
        push_string(out, &c.args[i]);
        proof {
            let next = c.args@.subrange(0, i + 1);
            assert(next.drop_last() == c.args@.subrange(0, i as int));
        }
        i = i + 1;
    }
    assert(c.args@.subrange(0, c.args@.len() as int) == c.args@);
    push_string(out, &c.working_directory);
    assert(out@ == start + intent_bytes(*c));
}

fn push_metadata(out: &mut Vec<u8>, m: &UserMetadata)
    ensures
        final(out)@ == old(out)@ + metadata_bytes(*m),
{
    let ghost start = out@;
    push_opt_string(out, &m.user_name);
    push_opt_string(out, &m.user_email);
    push_opt_string(out, &m.session_id);
    assert(out@ == start + metadata_bytes(*m));
}

fn push_entry_header(out: &mut Vec<u8>, id: u128, timestamp: i64)
    ensures
        final(out)@ == old(out)@ + le_bytes((id as nat) % two_to_64(), 8) + le_bytes((id as nat) / two_to_64(), 8)
            + le_bytes((timestamp as u64) as nat, 8),
{
    let low = (id % 0x1_0000_0000_0000_0000u128) as u64;
    let high = (id / 0x1_0000_0000_0000_0000u128) as u64;
    push_le(out, low, 8);
    push_le(out, high, 8);
    push_le(out, timestamp as u64, 8);
}

#[verifier::rlimit(40)]
fn push_log_entry(out: &mut Vec<u8>, e: &LogEntry)
    ensures
        final(out)@ == old(out)@ + log_entry_bytes(*e),
{
    let ghost s0 = out@;
    push_entry_header(out, e.id, e.timestamp);
    let ghost s1 = out@;
    push_operation(out, &e.operation);
    let ghost s2 = out@;
    push_state(out, &e.before_state);
    let ghost s3 = out@;
    push_state(out, &e.after_state);
    let ghost s4 = out@;
    push_intent(out, &e.command_intent);
    let ghost s5 = out@;
    push_metadata(out, &e.user_metadata);
    proof {
        let h = le_bytes((e.id as nat) % two_to_64(), 8) + le_bytes((e.id as nat) / two_to_64(), 8) + le_bytes(
            (e.timestamp as u64) as nat,
            8,
        );
        assert(s1 == s0 + h);
        assert(out@ == s0 + (h + operation_bytes(e.operation) + state_bytes(e.before_state) + state_bytes(
            e.after_state,
        ) + intent_bytes(e.command_intent) + metadata_bytes(e.user_metadata)));
    }
}

/// Writes the stored form of a log.
#[verifier::rlimit(40)]
pub fn encode_log(cursor: usize, entries: &Vec<LogEntry>) -> (r: Vec<u8>)
    ensures
        r@ == log_bytes(cursor as nat, entries@),
{
    let mut out: Vec<u8> = Vec::new();
    push_le(&mut out, cursor as u64, 8);
    push_le(&mut out, entries.len() as u64, 8);
    let ghost head = out@;
    let mut i: usize = 0;
    while i < entries.len()
        invariant
            i <= entries@.len(),
            out@ == head + log_entries_bytes(entries@.subrange(0, i as int)),
        decreases entries@.len() - i,
    {
        push_log_entry(&mut out, &entries[i]);
        proof {
            let next = entries@.subrange(0, i + 1);
            assert(next.drop_last() == entries@.subrange(0, i as int));
        }
        i = i + 1;
    }
    assert(entries@.subrange(0, entries@.len() as int) == entries@);
    out
}

fn read_flag(b: &[u8], pos: usize, Ghost(e): Ghost<bool>) -> (r: Option<(bool, usize)>)
    ensures
        r matches Some((v, p)) ==> p == pos + 1 && at(b@, pos as int, flag(v)),
        at(b@, pos as int, flag(e)) ==> (r matches Some((v, p)) && v == e),
{
    let ghost k: nat = if e { 1 } else { 0 };
    proof {
        reveal_with_fuel(le_bytes, 2);
        assert(le_bytes(0, 1) =~= seq![0u8]);
        assert(le_bytes(1, 1) =~= seq![1u8]);
        assert(flag(e) == le_bytes(k, 1));
    }
    let (x, p) = read_index(b, pos, 1, Ghost(k))?;
    proof {
        reveal_with_fuel(le_bytes, 2);
    }
    if x == 0 {
        Some((false, p))
    } else if x == 1 {
        Some((true, p))
    } else {
        None
    }
}

fn read_opt_id(b: &[u8], pos: usize, Ghost(e): Ghost<Option<ObjectId>>) -> (r: Option<(Option<ObjectId>, usize)>)
    ensures
        r matches Some((v, p)) ==> p == pos + opt_id_bytes(v).len() && at(b@, pos as int, opt_id_bytes(v)),
        at(b@, pos as int, opt_id_bytes(e)) ==> (r matches Some((v, p)) && opt_id_bytes(v) == opt_id_bytes(e)),
{
    let ghost exp = at(b@, pos as int, opt_id_bytes(e));
    proof {
        if let Some(id) = e {
            lemma_id_len(id);
        }
        if exp {
            if let Some(id) = e {
                lemma_at_split(b@, pos as int, flag(true), id@);
            }
        }
    }
    let (present, p) = read_flag(b, pos, Ghost(e is Some))?;
    if present {
        let (id, q) = read_id(b, p)?;
        proof {
            lemma_id_len(id);
            lemma_at_join(b@, pos as int, flag(true), id@);
            if exp {
                lemma_id_len(e->Some_0);
                lemma_at_same(b@, p as int, id@, e->Some_0@);
            }
        }
        Some((Some(id), q))
    } else {
        Some((None, p))
    }
}

fn read_opt_string(b: &[u8], pos: usize, Ghost(e): Ghost<Option<String>>) -> (r: Option<(Option<String>, usize)>)
    ensures
        r matches Some((v, p)) ==> p == pos + opt_string_bytes(v).len() && at(b@, pos as int, opt_string_bytes(v)),
        at(b@, pos as int, opt_string_bytes(e)) ==> (r matches Some((v, p)) && opt_string_bytes(v) == opt_string_bytes(
            e,
        )),
{
    let ghost exp = at(b@, pos as int, opt_string_bytes(e));
    let ghost es = match e {
        Some(x) => x,
        None => arbitrary(),
    };
    proof {
        if exp && e is Some {
            lemma_at_split(b@, pos as int, flag(true), string_field(&es));
        }
    }
    let (present, p) = read_flag(b, pos, Ghost(e is Some))?;
    if present {
        let (s, q) = read_string(b, p, Ghost(es))?;
        proof {
            lemma_at_join(b@, pos as int, flag(true), string_field(&s));
        }
        Some((Some(s), q))
    } else {
        Some((None, p))
    }
}

fn read_reference(b: &[u8], pos: usize, Ghost(e): Ghost<Reference>) -> (r: Option<(Reference, usize)>)
    ensures
        r matches Some((v, p)) ==> p == pos + reference_bytes(v).len() && at(b@, pos as int, reference_bytes(v)),
        at(b@, pos as int, reference_bytes(e)) ==> (r matches Some((v, p)) && reference_bytes(v) == reference_bytes(e)),
{
    let ghost exp = at(b@, pos as int, reference_bytes(e));
    let ghost tb = target_bytes(e.target);
    let ghost sym = e.target is Symbolic;
    let ghost tail = match e.target {
        ReferenceTarget::Direct(id) => id@,
        ReferenceTarget::Symbolic(s) => string_field(&s),
    };
    let ghost es = match e.target {
        ReferenceTarget::Symbolic(s) => s,
        _ => arbitrary(),
    };
    proof {
        if let ReferenceTarget::Direct(id) = e.target {
            lemma_id_len(id);
        }
        if exp {
            lemma_at_split(b@, pos as int, string_field(&e.name), tb);
            assert(tb == flag(sym) + tail);
            lemma_at_split(b@, pos + string_field(&e.name).len(), flag(sym), tail);
        }
    }
    let (name, p1) = read_string(b, pos, Ghost(e.name))?;
    let (symbolic, p2) = read_flag(b, p1, Ghost(sym))?;
    let (target, p3) = if symbolic {
        let (s, q) = read_string(b, p2, Ghost(es))?;
        proof {
            lemma_at_join(b@, p1 as int, flag(true), string_field(&s));
        }
        (ReferenceTarget::Symbolic(s), q)
    } else {
        let (id, q) = read_id(b, p2)?;
        proof {
            lemma_id_len(id);
            lemma_at_join(b@, p1 as int, flag(false), id@);
            if exp {
                lemma_at_same(b@, p2 as int, id@, tail);
            }
        }
        (ReferenceTarget::Direct(id), q)
    };
    let ghost tg = target;
    let v = Reference { name, target };
    proof {
        assert(target_bytes(tg) == target_bytes(v.target));
        lemma_at_join(b@, pos as int, string_field(&v.name), target_bytes(v.target));
    }
    Some((v, p3))
}

proof fn lemma_references_prefix(s: Seq<Reference>, i: int)
    requires
        0 <= i < s.len(),
    ensures
        references_bytes(s) == references_bytes(s.take(i)) + reference_bytes(s[i]) + references_bytes(s).subrange(
            references_bytes(s.take(i + 1)).len() as int,
            references_bytes(s).len() as int,
        ),
        references_bytes(s.take(i + 1)).len() <= references_bytes(s).len(),
    decreases s.len() - i,
{
    let t = s.take(i + 1);
    assert(t.drop_last() == s.take(i));
    assert(t.last() == s[i]);
    if i + 1 == s.len() {
        assert(t == s);
    } else {
        lemma_references_prefix(s, i + 1);
        let u = s.take(i + 2);
        assert(u.drop_last() == t);
    }
    let w = references_bytes(s);
    let a = references_bytes(t);
    assert(w =~= a + w.subrange(a.len() as int, w.len() as int));
}

fn read_reference_list(b: &[u8], pos: usize, Ghost(es): Ghost<Seq<Reference>>) -> (r: Option<(Vec<Reference>, usize)>)
    ensures
        r matches Some((v, p)) ==> p == pos + reference_list(v@).len() && at(b@, pos as int, reference_list(v@)),
        at(b@, pos as int, reference_list(es)) ==> (r matches Some((v, p)) && reference_list(v@) == reference_list(es)),
{
    let ghost exp = at(b@, pos as int, reference_list(es));
    proof {
        lemma_le_bytes_len(es.len(), 8);
        if exp {
            lemma_at_split(b@, pos as int, le_bytes(es.len(), 8), references_bytes(es));
            lemma_references_len(es);
        }
    }
    let (count, start) = read_count(b, pos, Ghost(es.len()))?;
    proof {
        lemma_le_bytes_len(count as nat, 8);
    }
    let mut p = start;
    let mut out: Vec<Reference> = Vec::new();
    assert(b@.subrange(start as int, start as int) =~= Seq::<u8>::empty());
    assert(references_bytes(out@) =~= Seq::<u8>::empty());
    assert(es.take(0) =~= Seq::<Reference>::empty());
    let mut i: u64 = 0;
    while i < count
        invariant
            start == pos + 8,
            start <= b@.len(),
            exp == at(b@, pos as int, reference_list(es)),
            i <= count,
            out@.len() == i,
            p == start + references_bytes(out@).len(),
            at(b@, start as int, references_bytes(out@)),
            exp ==> count == es.len() && at(b@, start as int, references_bytes(es)) && references_bytes(out@)
                == references_bytes(es.take(i as int)),
        decreases count - i,
    {
        let ghost want = if exp { es[i as int] } else { arbitrary() };
        proof {
            if exp {
                lemma_references_prefix(es, i as int);
                let w = references_bytes(es);
                let a = references_bytes(es.take(i as int + 1));
                let t = es.take(i as int + 1);
                assert(t.drop_last() == es.take(i as int));
                assert(t.last() == es[i as int]);
                assert(a == references_bytes(es.take(i as int)) + reference_bytes(es[i as int]));
                lemma_at_split(b@, start as int, a, w.subrange(a.len() as int, w.len() as int));
                lemma_at_split(b@, start as int, references_bytes(es.take(i as int)), reference_bytes(es[i as int]));
            }
        }
        let (e, q) = read_reference(b, p, Ghost(want))?;
        let ghost before = out@;
        out.push(e);
        proof {
            assert(out@.drop_last() == before);
            lemma_at_join(b@, start as int, references_bytes(before), reference_bytes(e));
            if exp {
                let t = es.take(i as int + 1);
                assert(t.drop_last() == es.take(i as int));
                assert(t.last() == es[i as int]);
            }
        }
        p = q;
        i = i + 1;
    }
    proof {
        lemma_at_join(b@, pos as int, le_bytes(count as nat, 8), references_bytes(out@));
        if exp {
            assert(es.take(es.len() as int) == es);
        }
    }
    Some((out, p))
}

proof fn lemma_references_len(s: Seq<Reference>)
    ensures
        s.len() <= references_bytes(s).len(),
    decreases s.len(),
{
    if s.len() > 0 {
        lemma_references_len(s.drop_last());
        lemma_le_bytes_len(utf8(&s.last().name).len(), 8);
    }
}

proof fn lemma_pairs_prefix(s: Seq<(String, ObjectId)>, i: int)
    requires
        0 <= i < s.len(),
    ensures
        pairs_bytes(s.take(i + 1)) == pairs_bytes(s.take(i)) + string_field(&s[i].0) + s[i].1@,
        pairs_bytes(s) == pairs_bytes(s.take(i + 1)) + pairs_bytes(s).subrange(
            pairs_bytes(s.take(i + 1)).len() as int,
            pairs_bytes(s).len() as int,
        ),
    decreases s.len() - i,
{
    let t = s.take(i + 1);
    assert(t.drop_last() == s.take(i));
    assert(t.last() == s[i]);
    if i + 1 == s.len() {
        assert(t == s);
    } else {
        lemma_pairs_prefix(s, i + 1);
    }
    let w = pairs_bytes(s);
    let a = pairs_bytes(t);
    assert(w =~= a + w.subrange(a.len() as int, w.len() as int));
}

proof fn lemma_pairs_len(s: Seq<(String, ObjectId)>)
    ensures
        s.len() <= pairs_bytes(s).len(),
    decreases s.len(),
{
    if s.len() > 0 {
        lemma_pairs_len(s.drop_last());
        lemma_id_len(s.last().1);
    }
}

fn read_index_state(b: &[u8], pos: usize, Ghost(e): Ghost<Option<IndexState>>) -> (r: Option<(Option<IndexState>, usize)>)
    ensures
        r matches Some((v, p)) ==> p == pos + index_bytes(v).len() && at(b@, pos as int, index_bytes(v)),
        at(b@, pos as int, index_bytes(e)) ==> (r matches Some((v, p)) && index_bytes(v) == index_bytes(e)),
{
    let ghost exp = at(b@, pos as int, index_bytes(e));
    let ghost es: Seq<(String, ObjectId)> = match e {
        Some(x) => x.entries@,
        None => Seq::empty(),
    };
    proof {
        lemma_le_bytes_len(es.len(), 8);
        if exp && e is Some {
            lemma_at_split(b@, pos as int, flag(true) + le_bytes(es.len(), 8), pairs_bytes(es));
            lemma_at_split(b@, pos as int, flag(true), le_bytes(es.len(), 8));
            lemma_pairs_len(es);
        }
    }
    let (present, p) = read_flag(b, pos, Ghost(e is Some))?;
    if !present {
        return Some((None, p));
    }
    let (count, start) = read_count(b, p, Ghost(es.len()))?;
    proof {
        lemma_le_bytes_len(count as nat, 8);
    }
    let mut q = start;
    let mut entries: Vec<(String, ObjectId)> = Vec::new();
    assert(b@.subrange(start as int, start as int) =~= Seq::<u8>::empty());
    assert(pairs_bytes(entries@) =~= Seq::<u8>::empty());
    assert(es.take(0) =~= Seq::<(String, ObjectId)>::empty());
    let mut i: u64 = 0;
    while i < count
        invariant
            start == pos + 9,
            start <= b@.len(),
            exp == at(b@, pos as int, index_bytes(e)),
            exp ==> e is Some,
            i <= count,
            entries@.len() == i,
            q == start + pairs_bytes(entries@).len(),
            at(b@, start as int, pairs_bytes(entries@)),
            exp ==> count == es.len() && at(b@, start as int, pairs_bytes(es)) && pairs_bytes(entries@) == pairs_bytes(
                es.take(i as int),
            ),
        decreases count - i,
    {
        let ghost want = if exp { es[i as int] } else { arbitrary() };
        proof {
            lemma_id_len(want.1);
            if exp {
                lemma_pairs_prefix(es, i as int);
                let w = pairs_bytes(es);
                let a = pairs_bytes(es.take(i as int + 1));
                lemma_at_split(b@, start as int, a, w.subrange(a.len() as int, w.len() as int));
                lemma_at_split(b@, start as int, pairs_bytes(es.take(i as int)) + string_field(&want.0), want.1@);
                lemma_at_split(b@, start as int, pairs_bytes(es.take(i as int)), string_field(&want.0));
            }
        }
        let (name, q1) = read_string(b, q, Ghost(want.0))?;
        let (id, q2) = read_id(b, q1)?;
        let ghost before = entries@;
        proof {
            lemma_id_len(id);
            if exp {
                lemma_id_len(want.1);
                lemma_at_same(b@, q1 as int, id@, want.1@);
            }
        }
        entries.push((name, id));
        proof {
            let t = entries@;
            assert(t.drop_last() == before);
            lemma_at_join(b@, start as int, pairs_bytes(before), string_field(&t.last().0));
            lemma_at_join(b@, start as int, pairs_bytes(before) + string_field(&t.last().0), id@);
            if exp {
                lemma_pairs_prefix(es, i as int);
            }
        }
        q = q2;
        i = i + 1;
    }
    let v = Some(IndexState { entries });
    proof {
        lemma_at_join(b@, p as int, le_bytes(count as nat, 8), pairs_bytes(v->Some_0.entries@));
        lemma_at_join(b@, pos as int, flag(true), le_bytes(count as nat, 8) + pairs_bytes(v->Some_0.entries@));
        assert(index_bytes(v) =~= flag(true) + (le_bytes(count as nat, 8) + pairs_bytes(v->Some_0.entries@)));
        if exp {
            assert(es.take(es.len() as int) == es);
            assert(index_bytes(e) =~= flag(true) + (le_bytes(es.len(), 8) + pairs_bytes(es)));
        }
    }
    Some((v, q))
}

fn read_state(b: &[u8], pos: usize, Ghost(e): Ghost<RepositoryState>) -> (r: Option<(RepositoryState, usize)>)
    ensures
        r matches Some((v, p)) ==> p == pos + state_bytes(v).len() && at(b@, pos as int, state_bytes(v)),
        at(b@, pos as int, state_bytes(e)) ==> (r matches Some((v, p)) && state_bytes(v) == state_bytes(e)),
{
    let ghost exp = at(b@, pos as int, state_bytes(e));
    proof {
        if exp {
            lemma_at_split(b@, pos as int, opt_id_bytes(e.head) + reference_list(e.refs@), index_bytes(e.index_state));
            lemma_at_split(b@, pos as int, opt_id_bytes(e.head), reference_list(e.refs@));
        }
    }
    let (head, p1) = read_opt_id(b, pos, Ghost(e.head))?;
    let (refs, p2) = read_reference_list(b, p1, Ghost(e.refs@))?;
    let (index_state, p3) = read_index_state(b, p2, Ghost(e.index_state))?;
    let v = RepositoryState { head, refs, index_state };
    proof {
        lemma_at_join(b@, pos as int, opt_id_bytes(v.head), reference_list(v.refs@));
        lemma_at_join(b@, pos as int, opt_id_bytes(v.head) + reference_list(v.refs@), index_bytes(v.index_state));
    }
    Some((v, p3))
}

proof fn lemma_strings_prefix(s: Seq<String>, i: int)
    requires
        0 <= i < s.len(),
    ensures
        strings_bytes(s.take(i + 1)) == strings_bytes(s.take(i)) + string_field(&s[i]),
        strings_bytes(s) == strings_bytes(s.take(i + 1)) + strings_bytes(s).subrange(
            strings_bytes(s.take(i + 1)).len() as int,
            strings_bytes(s).len() as int,
        ),
    decreases s.len() - i,
{
    let t = s.take(i + 1);
    assert(t.drop_last() == s.take(i));
    assert(t.last() == s[i]);
    if i + 1 == s.len() {
        assert(t == s);
    } else {
        lemma_strings_prefix(s, i + 1);
    }
    let w = strings_bytes(s);
    let a = strings_bytes(t);
    assert(w =~= a + w.subrange(a.len() as int, w.len() as int));
}

proof fn lemma_strings_len(s: Seq<String>)
    ensures
        s.len() <= strings_bytes(s).len(),
    decreases s.len(),
{
    if s.len() > 0 {
        lemma_strings_len(s.drop_last());
        lemma_le_bytes_len(utf8(&s.last()).len(), 8);
    }
}

pub open spec fn strings_field(s: Seq<String>) -> Seq<u8> {
    le_bytes(s.len(), 8) + strings_bytes(s)
}

fn read_strings(b: &[u8], pos: usize, Ghost(es): Ghost<Seq<String>>) -> (r: Option<(Vec<String>, usize)>)
    ensures
        r matches Some((v, p)) ==> p == pos + strings_field(v@).len() && at(b@, pos as int, strings_field(v@)),
        at(b@, pos as int, strings_field(es)) ==> (r matches Some((v, p)) && strings_field(v@) == strings_field(es)),
{
    let ghost exp = at(b@, pos as int, strings_field(es));
    proof {
        lemma_le_bytes_len(es.len(), 8);
        if exp {
            lemma_at_split(b@, pos as int, le_bytes(es.len(), 8), strings_bytes(es));
            lemma_strings_len(es);
        }
    }
    let (count, start) = read_count(b, pos, Ghost(es.len()))?;
    proof {
        lemma_le_bytes_len(count as nat, 8);
    }
    let mut q = start;
    let mut out: Vec<String> = Vec::new();
    assert(b@.subrange(start as int, start as int) =~= Seq::<u8>::empty());
    assert(strings_bytes(out@) =~= Seq::<u8>::empty());
    assert(es.take(0) =~= Seq::<String>::empty());
    let mut i: u64 = 0;
    while i < count
        invariant
            start == pos + 8,
            start <= b@.len(),
            exp == at(b@, pos as int, strings_field(es)),
            i <= count,
            out@.len() == i,
            q == start + strings_bytes(out@).len(),
            at(b@, start as int, strings_bytes(out@)),
            exp ==> count == es.len() && at(b@, start as int, strings_bytes(es)) && strings_bytes(out@)
                == strings_bytes(es.take(i as int)),
        decreases count - i,
    {
        let ghost want = if exp { es[i as int] } else { arbitrary() };
        proof {
            if exp {
                lemma_strings_prefix(es, i as int);
                let w = strings_bytes(es);
                let a = strings_bytes(es.take(i as int + 1));
                lemma_at_split(b@, start as int, a, w.subrange(a.len() as int, w.len() as int));
                lemma_at_split(b@, start as int, strings_bytes(es.take(i as int)), string_field(&want));
            }
        }
        let (s1, q1) = read_string(b, q, Ghost(want))?;
        let ghost before = out@;
        out.push(s1);
        proof {
            assert(out@.drop_last() == before);
            lemma_at_join(b@, start as int, strings_bytes(before), string_field(&out@.last()));
            if exp {
                lemma_strings_prefix(es, i as int);
            }
        }
        q = q1;
        i = i + 1;
    }
    proof {
        lemma_at_join(b@, pos as int, le_bytes(count as nat, 8), strings_bytes(out@));
        if exp {
            assert(es.take(es.len() as int) == es);
        }
    }
    Some((out, q))
}

fn read_intent(b: &[u8], pos: usize, Ghost(e): Ghost<CommandIntent>) -> (r: Option<(CommandIntent, usize)>)
    ensures
        r matches Some((v, p)) ==> p == pos + intent_bytes(v).len() && at(b@, pos as int, intent_bytes(v)),
        at(b@, pos as int, intent_bytes(e)) ==> (r matches Some((v, p)) && intent_bytes(v) == intent_bytes(e)),
{
    let ghost exp = at(b@, pos as int, intent_bytes(e));
    let ghost g1 = string_field(&e.command);
    let ghost g2 = strings_field(e.args@);
    let ghost g3 = string_field(&e.working_directory);
    proof {
        assert(intent_bytes(e) == g1 + g2 + g3);
        if exp {
            lemma_at_split(b@, pos as int, g1 + g2, g3);
            lemma_at_split(b@, pos as int, g1, g2);
        }
    }
    let (command, p1) = read_string(b, pos, Ghost(e.command))?;
    let (args, p2) = read_strings(b, p1, Ghost(e.args@))?;
    let (working_directory, p3) = read_string(b, p2, Ghost(e.working_directory))?;
    let v = CommandIntent { command, args, working_directory };
    proof {
        lemma_at_join(b@, pos as int, string_field(&v.command), strings_field(v.args@));
        lemma_at_join(b@, pos as int, string_field(&v.command) + strings_field(v.args@), string_field(&v.working_directory));
        assert(intent_bytes(v) == string_field(&v.command) + strings_field(v.args@) + string_field(&v.working_directory));
    }
    Some((v, p3))
}

fn read_metadata(b: &[u8], pos: usize, Ghost(e): Ghost<UserMetadata>) -> (r: Option<(UserMetadata, usize)>)
    ensures
        r matches Some((v, p)) ==> p == pos + metadata_bytes(v).len() && at(b@, pos as int, metadata_bytes(v)),
        at(b@, pos as int, metadata_bytes(e)) ==> (r matches Some((v, p)) && metadata_bytes(v) == metadata_bytes(e)),
{
    let ghost exp = at(b@, pos as int, metadata_bytes(e));
    let ghost g1 = opt_string_bytes(e.user_name);
    let ghost g2 = opt_string_bytes(e.user_email);
    let ghost g3 = opt_string_bytes(e.session_id);
    proof {
        if exp {
            lemma_at_split(b@, pos as int, g1 + g2, g3);
            lemma_at_split(b@, pos as int, g1, g2);
        }
    }
    let (user_name, p1) = read_opt_string(b, pos, Ghost(e.user_name))?;
    let (user_email, p2) = read_opt_string(b, p1, Ghost(e.user_email))?;
    let (session_id, p3) = read_opt_string(b, p2, Ghost(e.session_id))?;
    let v = UserMetadata { user_name, user_email, session_id };
    proof {
        lemma_at_join(b@, pos as int, opt_string_bytes(v.user_name), opt_string_bytes(v.user_email));
        lemma_at_join(b@, pos as int, opt_string_bytes(v.user_name) + opt_string_bytes(v.user_email), opt_string_bytes(v.session_id));
    }
    Some((v, p3))
}


pub open spec fn operation_index(op: Operation) -> nat {
    match op {
        Operation::Commit { .. } => 0,
        Operation::CreateBranch { .. } => 1,
        Operation::DeleteBranch { .. } => 2,
        Operation::SwitchBranch { .. } => 3,
        Operation::Merge { .. } => 4,
    }
}

pub open spec fn operation_body(op: Operation) -> Seq<u8> {
    match op {
        Operation::Commit { before_head, after_head, tree, message, parents } => opt_id_bytes(before_head)
            + after_head@ + tree@ + string_field(&message) + ids_field(parents@),
        Operation::CreateBranch { name, target, before_refs } => string_field(&name) + target@ + reference_list(
            before_refs@,
        ),
        Operation::DeleteBranch { name, deleted_target, before_refs } => string_field(&name) + deleted_target@
            + reference_list(before_refs@),
        Operation::SwitchBranch { from_branch, to_branch, before_head, after_head } => opt_string_bytes(
            from_branch,
        ) + string_field(&to_branch) + before_head@ + after_head@,
        Operation::Merge { branch, before_head, after_head, strategy } => string_field(&branch) + before_head@
            + after_head@ + seq![strategy_index(strategy)],
    }
}

proof fn lemma_operation_parts(op: Operation)
    ensures
        operation_bytes(op) == le_bytes(operation_index(op), 1) + operation_body(op),
        operation_index(op) < 5,
{
    reveal_with_fuel(le_bytes, 2);
    assert(le_bytes(operation_index(op), 1) =~= seq![operation_index(op) as u8]);
    assert(operation_bytes(op) =~= le_bytes(operation_index(op), 1) + operation_body(op));
}

fn read_commit_op(b: &[u8], pos: usize, Ghost(e): Ghost<Operation>) -> (r: Option<(Operation, usize)>)
    requires
        e is Commit,
    ensures
        r matches Some((v, p)) ==> v is Commit && p == pos + operation_body(v).len() && at(b@, pos as int, operation_body(v)),
        at(b@, pos as int, operation_body(e)) ==> (r matches Some((v, p)) && operation_body(v) == operation_body(e)),
{
    let ghost exp = at(b@, pos as int, operation_body(e));
    let ghost (eb, ea, et, em, ep) = match e {
        Operation::Commit { before_head, after_head, tree, message, parents } => (before_head, after_head, tree, message, parents@),
        _ => arbitrary(),
    };
    let ghost g1 = opt_id_bytes(eb);
    proof {
        lemma_id_len(ea);
        lemma_id_len(et);
        if exp {
            lemma_at_split(b@, pos as int, g1 + ea@ + et@ + string_field(&em), ids_field(ep));
            lemma_at_split(b@, pos as int, g1 + ea@ + et@, string_field(&em));
            lemma_at_split(b@, pos as int, g1 + ea@, et@);
            lemma_at_split(b@, pos as int, g1, ea@);
        }
    }
    let (before_head, p1) = read_opt_id(b, pos, Ghost(eb))?;
    let (after_head, p2) = read_id(b, p1)?;
    proof {
        lemma_id_len(after_head);
        if exp {
            lemma_at_same(b@, p1 as int, after_head@, ea@);
        }
    }
    let (tree, p3) = read_id(b, p2)?;
    proof {
        lemma_id_len(tree);
        if exp {
            lemma_at_same(b@, p2 as int, tree@, et@);
        }
    }
    let (message, p4) = read_string(b, p3, Ghost(em))?;
    let (parents, p5) = read_parents(b, p4, Ghost(ep))?;
    let ghost h1 = opt_id_bytes(before_head);
    let ghost h4 = string_field(&message);
    let ghost h5 = ids_field(parents@);
    let v = Operation::Commit { before_head, after_head, tree, message, parents };
    proof {
        lemma_at_join(b@, pos as int, h1, after_head@);
        lemma_at_join(b@, pos as int, h1 + after_head@, tree@);
        lemma_at_join(b@, pos as int, h1 + after_head@ + tree@, h4);
        lemma_at_join(b@, pos as int, h1 + after_head@ + tree@ + h4, h5);
    }
    Some((v, p5))
}

fn read_branch_op(b: &[u8], pos: usize, create: bool, Ghost(e): Ghost<Operation>) -> (r: Option<(Operation, usize)>)
    requires
        create ==> e is CreateBranch,
        !create ==> e is DeleteBranch,
    ensures
        r matches Some((v, p)) ==> (if create { v is CreateBranch } else { v is DeleteBranch }) && p == pos
            + operation_body(v).len() && at(b@, pos as int, operation_body(v)),
        at(b@, pos as int, operation_body(e)) ==> (r matches Some((v, p)) && operation_body(v) == operation_body(e)),
{
    let ghost exp = at(b@, pos as int, operation_body(e));
    let ghost (en, et, er) = match e {
        Operation::CreateBranch { name, target, before_refs } => (name, target, before_refs@),
        Operation::DeleteBranch { name, deleted_target, before_refs } => (name, deleted_target, before_refs@),
        _ => arbitrary(),
    };
    proof {
        lemma_id_len(et);
        if exp {
            lemma_at_split(b@, pos as int, string_field(&en) + et@, reference_list(er));
            lemma_at_split(b@, pos as int, string_field(&en), et@);
        }
    }
    let (name, p1) = read_string(b, pos, Ghost(en))?;
    let (target, p2) = read_id(b, p1)?;
    proof {
        lemma_id_len(target);
        if exp {
            lemma_at_same(b@, p1 as int, target@, et@);
        }
    }
    let (before_refs, p3) = read_reference_list(b, p2, Ghost(er))?;
    let ghost h1 = string_field(&name);
    let ghost h3 = reference_list(before_refs@);
    let v = if create {
        Operation::CreateBranch { name, target, before_refs }
    } else {
        Operation::DeleteBranch { name, deleted_target: target, before_refs }
    };
    proof {
        lemma_at_join(b@, pos as int, h1, target@);
        lemma_at_join(b@, pos as int, h1 + target@, h3);
    }
    Some((v, p3))
}

fn read_switch_op(b: &[u8], pos: usize, Ghost(e): Ghost<Operation>) -> (r: Option<(Operation, usize)>)
    requires
        e is SwitchBranch,
    ensures
        r matches Some((v, p)) ==> v is SwitchBranch && p == pos + operation_body(v).len() && at(b@, pos as int, operation_body(v)),
        at(b@, pos as int, operation_body(e)) ==> (r matches Some((v, p)) && operation_body(v) == operation_body(e)),
{
    let ghost exp = at(b@, pos as int, operation_body(e));
    let ghost (ef, et, eb, ea) = match e {
        Operation::SwitchBranch { from_branch, to_branch, before_head, after_head } => (from_branch, to_branch, before_head, after_head),
        _ => arbitrary(),
    };
    let ghost g1 = opt_string_bytes(ef);
    proof {
        lemma_id_len(eb);
        lemma_id_len(ea);
        if exp {
            lemma_at_split(b@, pos as int, g1 + string_field(&et) + eb@, ea@);
            lemma_at_split(b@, pos as int, g1 + string_field(&et), eb@);
            lemma_at_split(b@, pos as int, g1, string_field(&et));
        }
    }
    let (from_branch, p1) = read_opt_string(b, pos, Ghost(ef))?;
    let (to_branch, p2) = read_string(b, p1, Ghost(et))?;
    let (before_head, p3) = read_id(b, p2)?;
    proof {
        lemma_id_len(before_head);
        if exp {
            lemma_at_same(b@, p2 as int, before_head@, eb@);
        }
    }
    let (after_head, p4) = read_id(b, p3)?;
    proof {
        lemma_id_len(after_head);
        if exp {
            lemma_at_same(b@, p3 as int, after_head@, ea@);
        }
    }
    let ghost h1 = opt_string_bytes(from_branch);
    let ghost h2 = string_field(&to_branch);
    let v = Operation::SwitchBranch { from_branch, to_branch, before_head, after_head };
    proof {
        lemma_at_join(b@, pos as int, h1, h2);
        lemma_at_join(b@, pos as int, h1 + h2, before_head@);
        lemma_at_join(b@, pos as int, h1 + h2 + before_head@, after_head@);
    }
    Some((v, p4))
}

fn read_merge_op(b: &[u8], pos: usize, Ghost(e): Ghost<Operation>) -> (r: Option<(Operation, usize)>)
    requires
        e is Merge,
    ensures
        r matches Some((v, p)) ==> v is Merge && p == pos + operation_body(v).len() && at(b@, pos as int, operation_body(v)),
        at(b@, pos as int, operation_body(e)) ==> (r matches Some((v, p)) && operation_body(v) == operation_body(e)),
{
    let ghost exp = at(b@, pos as int, operation_body(e));
    let ghost (en, eb, ea, es) = match e {
        Operation::Merge { branch, before_head, after_head, strategy } => (branch, before_head, after_head, strategy),
        _ => arbitrary(),
    };
    let ghost si = strategy_index(es) as nat;
    proof {
        lemma_id_len(eb);
        lemma_id_len(ea);
        reveal_with_fuel(le_bytes, 2);
        assert(le_bytes(si, 1) =~= seq![strategy_index(es)]);
        if exp {
            lemma_at_split(b@, pos as int, string_field(&en) + eb@ + ea@, seq![strategy_index(es)]);
            lemma_at_split(b@, pos as int, string_field(&en) + eb@, ea@);
            lemma_at_split(b@, pos as int, string_field(&en), eb@);
        }
    }
    let (branch, p1) = read_string(b, pos, Ghost(en))?;
    let (before_head, p2) = read_id(b, p1)?;
    proof {
        lemma_id_len(before_head);
        if exp {
            lemma_at_same(b@, p1 as int, before_head@, eb@);
        }
    }
    let (after_head, p3) = read_id(b, p2)?;
    proof {
        lemma_id_len(after_head);
        if exp {
            lemma_at_same(b@, p2 as int, after_head@, ea@);
        }
    }
    let (sv, p4) = read_index(b, p3, 1, Ghost(si))?;
    let strategy = if sv == 0 {
        MergeStrategy::ThreeWay
    } else if sv == 1 {
        MergeStrategy::Ours
    } else if sv == 2 {
        MergeStrategy::Theirs
    } else if sv == 3 {
        MergeStrategy::Recursive
    } else {
        return None;
    };
    let ghost h1 = string_field(&branch);
    let v = Operation::Merge { branch, before_head, after_head, strategy };
    proof {
        reveal_with_fuel(le_bytes, 2);
        assert(le_bytes(sv as nat, 1) =~= seq![strategy_index(strategy)]);
        lemma_at_join(b@, pos as int, h1, before_head@);
        lemma_at_join(b@, pos as int, h1 + before_head@, after_head@);
        lemma_at_join(b@, pos as int, h1 + before_head@ + after_head@, seq![strategy_index(strategy)]);
    }
    Some((v, p4))
}

fn read_operation(b: &[u8], pos: usize, Ghost(e): Ghost<Operation>) -> (r: Option<(Operation, usize)>)
    ensures
        r matches Some((v, p)) ==> p == pos + operation_bytes(v).len() && at(b@, pos as int, operation_bytes(v)),
        at(b@, pos as int, operation_bytes(e)) ==> (r matches Some((v, p)) && operation_bytes(v) == operation_bytes(e)),
{
    let ghost exp = at(b@, pos as int, operation_bytes(e));
    let ghost k = operation_index(e);
    proof {
        lemma_operation_parts(e);
        lemma_le_bytes_len(k, 1);
        if exp {
            lemma_at_split(b@, pos as int, le_bytes(k, 1), operation_body(e));
        }
    }
    let (tag, p) = read_index(b, pos, 1, Ghost(k))?;
    let (v, q) = if tag == 0 {
        let ghost x = if exp { e } else { Operation::Commit { before_head: None, after_head: arbitrary(), tree: arbitrary(), message: arbitrary(), parents: arbitrary() } };
        read_commit_op(b, p, Ghost(x))?
    } else if tag == 1 || tag == 2 {
        let ghost x = if exp { e } else if tag == 1 { Operation::CreateBranch { name: arbitrary(), target: arbitrary(), before_refs: arbitrary() } } else { Operation::DeleteBranch { name: arbitrary(), deleted_target: arbitrary(), before_refs: arbitrary() } };
        read_branch_op(b, p, tag == 1, Ghost(x))?
    } else if tag == 3 {
        let ghost x = if exp { e } else { Operation::SwitchBranch { from_branch: None, to_branch: arbitrary(), before_head: arbitrary(), after_head: arbitrary() } };
        read_switch_op(b, p, Ghost(x))?
    } else if tag == 4 {
        let ghost x = if exp { e } else { Operation::Merge { branch: arbitrary(), before_head: arbitrary(), after_head: arbitrary(), strategy: MergeStrategy::Ours } };
        read_merge_op(b, p, Ghost(x))?
    } else {
        return None;
    };
    proof {
        lemma_operation_parts(v);
        lemma_le_bytes_len(tag as nat, 1);
        assert(operation_index(v) == tag);
        lemma_at_join(b@, pos as int, le_bytes(tag as nat, 1), operation_body(v));
    }
    Some((v, q))
}

pub open spec fn entry_header(id: u128, timestamp: i64) -> Seq<u8> {
    le_bytes((id as nat) % two_to_64(), 8) + le_bytes((id as nat) / two_to_64(), 8) + le_bytes(
        (timestamp as u64) as nat,
        8,
    )
}

fn read_header(b: &[u8], pos: usize, Ghost(eid): Ghost<u128>, Ghost(ets): Ghost<i64>) -> (r: Option<(u128, i64, usize)>)
    ensures
        r matches Some((id, ts, p)) ==> p == pos + 24 && at(b@, pos as int, entry_header(id, ts)),
        at(b@, pos as int, entry_header(eid, ets)) ==> (r matches Some((id, ts, p)) && entry_header(id, ts)
            == entry_header(eid, ets)),
{
    let ghost exp = at(b@, pos as int, entry_header(eid, ets));
    proof {
        lemma_le_bytes_len((eid as nat) % two_to_64(), 8);
        lemma_le_bytes_len((eid as nat) / two_to_64(), 8);
        lemma_le_bytes_len((ets as u64) as nat, 8);
    }
    let (low, p1) = read_le(b, pos, 8)?;
    let (high, p2) = read_le(b, p1, 8)?;
    let (ts, p3) = read_le(b, p2, 8)?;
    let id: u128 = (high as u128) * 0x1_0000_0000_0000_0000u128 + (low as u128);
    let t = ts as i64;
    proof {
        lemma_pow256_8();
        assert((id as nat) % two_to_64() == low as nat && (id as nat) / two_to_64() == high as nat) by (nonlinear_arith)
            requires
                id as nat == (high as nat) * 0x1_0000_0000_0000_0000 + (low as nat),
                (low as nat) < 0x1_0000_0000_0000_0000,
                two_to_64() == 0x1_0000_0000_0000_0000,
        ;
        assert((t as u64) == ts) by (bit_vector)
            requires
                t == ts as i64,
        ;
        lemma_le_bytes_len(low as nat, 8);
        lemma_le_bytes_len(high as nat, 8);
        lemma_le_bytes_len(ts as nat, 8);
        lemma_at_join(b@, pos as int, le_bytes(low as nat, 8), le_bytes(high as nat, 8));
        lemma_at_join(b@, pos as int, le_bytes(low as nat, 8) + le_bytes(high as nat, 8), le_bytes(ts as nat, 8));
        if exp {
            lemma_at_same(b@, pos as int, entry_header(id, t), entry_header(eid, ets));
        }
    }
    Some((id, t, p3))
}

pub open spec fn entry_tail(after: RepositoryState, c: CommandIntent, m: UserMetadata) -> Seq<u8> {
    state_bytes(after) + intent_bytes(c) + metadata_bytes(m)
}

fn read_entry_tail(
    b: &[u8],
    pos: usize,
    Ghost(ea): Ghost<RepositoryState>,
    Ghost(ec): Ghost<CommandIntent>,
    Ghost(em): Ghost<UserMetadata>,
) -> (r: Option<(RepositoryState, CommandIntent, UserMetadata, usize)>)
    ensures
        r matches Some((a, c, m, p)) ==> p == pos + entry_tail(a, c, m).len() && at(b@, pos as int, entry_tail(a, c, m)),
        at(b@, pos as int, entry_tail(ea, ec, em)) ==> (r matches Some((a, c, m, p)) && entry_tail(a, c, m)
            == entry_tail(ea, ec, em)),
{
    let ghost exp = at(b@, pos as int, entry_tail(ea, ec, em));
    proof {
        if exp {
            lemma_at_split(b@, pos as int, state_bytes(ea) + intent_bytes(ec), metadata_bytes(em));
            lemma_at_split(b@, pos as int, state_bytes(ea), intent_bytes(ec));
        }
    }
    let (a, p1) = read_state(b, pos, Ghost(ea))?;
    let (c, p2) = read_intent(b, p1, Ghost(ec))?;
    let (m, p3) = read_metadata(b, p2, Ghost(em))?;
    proof {
        lemma_at_join(b@, pos as int, state_bytes(a), intent_bytes(c));
        lemma_at_join(b@, pos as int, state_bytes(a) + intent_bytes(c), metadata_bytes(m));
    }
    Some((a, c, m, p3))
}

proof fn lemma_header_len(id: u128, timestamp: i64)
    ensures
        entry_header(id, timestamp).len() == 24,
{
    lemma_le_bytes_len((id as nat) % two_to_64(), 8);
    lemma_le_bytes_len((id as nat) / two_to_64(), 8);
    lemma_le_bytes_len((timestamp as u64) as nat, 8);
}

pub open spec fn entry_front(id: u128, timestamp: i64, op: Operation, before: RepositoryState) -> Seq<u8> {
    entry_header(id, timestamp) + operation_bytes(op) + state_bytes(before)
}

proof fn lemma_entry_parts(e: LogEntry)
    ensures
        log_entry_bytes(e) == entry_front(e.id, e.timestamp, e.operation, e.before_state) + entry_tail(
            e.after_state,
            e.command_intent,
            e.user_metadata,
        ),
{
    assert(log_entry_bytes(e) =~= entry_front(e.id, e.timestamp, e.operation, e.before_state) + entry_tail(
        e.after_state,
        e.command_intent,
        e.user_metadata,
    ));
}

fn read_entry_front(
    b: &[u8],
    pos: usize,
    Ghost(eid): Ghost<u128>,
    Ghost(ets): Ghost<i64>,
    Ghost(eop): Ghost<Operation>,
    Ghost(ebf): Ghost<RepositoryState>,
) -> (r: Option<(u128, i64, Operation, RepositoryState, usize)>)
    ensures
        r matches Some((id, ts, op, bf, p)) ==> p == pos + entry_front(id, ts, op, bf).len() && at(
            b@,
            pos as int,
            entry_front(id, ts, op, bf),
        ),
        at(b@, pos as int, entry_front(eid, ets, eop, ebf)) ==> (r matches Some((id, ts, op, bf, p))
            && entry_front(id, ts, op, bf) == entry_front(eid, ets, eop, ebf)),
{
    let ghost exp = at(b@, pos as int, entry_front(eid, ets, eop, ebf));
    proof {
        lemma_header_len(eid, ets);
        if exp {
            lemma_at_split(b@, pos as int, entry_header(eid, ets) + operation_bytes(eop), state_bytes(ebf));
            lemma_at_split(b@, pos as int, entry_header(eid, ets), operation_bytes(eop));
        }
    }
    let (id, ts, p0) = read_header(b, pos, Ghost(eid), Ghost(ets))?;
    let (op, p1) = read_operation(b, p0, Ghost(eop))?;
    let (bf, p2) = read_state(b, p1, Ghost(ebf))?;
    let ghost h1 = operation_bytes(op);
    let ghost h2 = state_bytes(bf);
    proof {
        lemma_header_len(id, ts);
        lemma_at_join(b@, pos as int, entry_header(id, ts), h1);
        lemma_at_join(b@, pos as int, entry_header(id, ts) + h1, h2);
    }
    Some((id, ts, op, bf, p2))
}

fn read_log_entry(b: &[u8], pos: usize, Ghost(e): Ghost<LogEntry>) -> (r: Option<(LogEntry, usize)>)
    ensures
        r matches Some((v, p)) ==> p == pos + log_entry_bytes(v).len() && at(b@, pos as int, log_entry_bytes(v)),
        at(b@, pos as int, log_entry_bytes(e)) ==> (r matches Some((v, p)) && log_entry_bytes(v) == log_entry_bytes(e)),
{
    let ghost exp = at(b@, pos as int, log_entry_bytes(e));
    let ghost f = entry_front(e.id, e.timestamp, e.operation, e.before_state);
    let ghost t = entry_tail(e.after_state, e.command_intent, e.user_metadata);
    proof {
        lemma_entry_parts(e);
        if exp {
            lemma_at_split(b@, pos as int, f, t);
        }
    }
    let (id, timestamp, operation, before_state, p1) = read_entry_front(
        b,
        pos,
        Ghost(e.id),
        Ghost(e.timestamp),
        Ghost(e.operation),
        Ghost(e.before_state),
    )?;
    let (after_state, command_intent, user_metadata, p2) = read_entry_tail(
        b,
        p1,
        Ghost(e.after_state),
        Ghost(e.command_intent),
        Ghost(e.user_metadata),
    )?;
    let ghost f2 = entry_front(id, timestamp, operation, before_state);
    let ghost t2 = entry_tail(after_state, command_intent, user_metadata);
    let v = LogEntry { id, timestamp, operation, before_state, after_state, command_intent, user_metadata };
    proof {
        lemma_entry_parts(v);
        lemma_at_join(b@, pos as int, f2, t2);
    }
    Some((v, p2))
}

proof fn lemma_log_entries_prefix(s: Seq<LogEntry>, i: int)
    requires
        0 <= i < s.len(),
    ensures
        log_entries_bytes(s.take(i + 1)) == log_entries_bytes(s.take(i)) + log_entry_bytes(s[i]),
        log_entries_bytes(s) == log_entries_bytes(s.take(i + 1)) + log_entries_bytes(s).subrange(
            log_entries_bytes(s.take(i + 1)).len() as int,
            log_entries_bytes(s).len() as int,
        ),
    decreases s.len() - i,
{
    let t = s.take(i + 1);
    assert(t.drop_last() == s.take(i));
    assert(t.last() == s[i]);
    if i + 1 == s.len() {
        assert(t == s);
    } else {
        lemma_log_entries_prefix(s, i + 1);
    }
    let w = log_entries_bytes(s);
    let a = log_entries_bytes(t);
    assert(w =~= a + w.subrange(a.len() as int, w.len() as int));
}

proof fn lemma_log_entries_len(s: Seq<LogEntry>)
    ensures
        s.len() <= log_entries_bytes(s).len(),
    decreases s.len(),
{
    if s.len() > 0 {
        lemma_log_entries_len(s.drop_last());
        let e = s.last();
        lemma_le_bytes_len((e.id as nat) % two_to_64(), 8);
    }
}

/// Reads a log back from its stored form. A log comes back exactly when the
/// bytes are the stored form of some log whose cursor lies within its
/// entries, and then it has that stored form.
#[verifier::rlimit(100)]
pub fn decode_log(bytes: &[u8]) -> (r: Option<(usize, Vec<LogEntry>)>)
    ensures
        r matches Some((cursor, entries)) ==> log_bytes(cursor as nat, entries@) == bytes@ && cursor
            <= entries@.len(),
        (exists|c: nat, es: Seq<LogEntry>| c <= es.len() && #[trigger] log_bytes(c, es) == bytes@) ==> r is Some,
{
    let ghost found = exists|c: nat, es: Seq<LogEntry>| c <= es.len() && #[trigger] log_bytes(c, es) == bytes@;
    let ghost (ec, ees) = if found {
        choose|c: nat, es: Seq<LogEntry>| c <= es.len() && #[trigger] log_bytes(c, es) == bytes@
    } else {
        (0nat, Seq::empty())
    };
    proof {
        lemma_le_bytes_len(ec, 8);
        lemma_le_bytes_len(ees.len(), 8);
        if found {
            assert(bytes@.subrange(0, bytes@.len() as int) =~= bytes@);
            lemma_at_split(bytes@, 0, le_bytes(ec, 8) + le_bytes(ees.len(), 8), log_entries_bytes(ees));
            lemma_at_split(bytes@, 0, le_bytes(ec, 8), le_bytes(ees.len(), 8));
            lemma_log_entries_len(ees);
        }
    }
    let (cursor, p0) = read_count(bytes, 0, Ghost(ec))?;
    let (count, start) = read_count(bytes, p0, Ghost(ees.len()))?;
    proof {
        lemma_le_bytes_len(cursor as nat, 8);
        lemma_le_bytes_len(count as nat, 8);
    }
    let mut p = start;
    let mut entries: Vec<LogEntry> = Vec::new();
    assert(bytes@.subrange(start as int, start as int) =~= Seq::<u8>::empty());
    assert(log_entries_bytes(entries@) =~= Seq::<u8>::empty());
    assert(ees.take(0) =~= Seq::<LogEntry>::empty());
    let mut i: u64 = 0;
    while i < count
        invariant
            start == 16,
            start <= bytes@.len(),
            p0 == 8,
            at(bytes@, 0, le_bytes(cursor as nat, 8)),
            at(bytes@, 8, le_bytes(count as nat, 8)),
            i <= count,
            entries@.len() == i,
            p == start + log_entries_bytes(entries@).len(),
            at(bytes@, start as int, log_entries_bytes(entries@)),
            found == (exists|c: nat, es: Seq<LogEntry>| c <= es.len() && #[trigger] log_bytes(c, es) == bytes@),
            found ==> count == ees.len() && cursor == ec && ec <= ees.len() && at(bytes@, start as int, log_entries_bytes(ees))
                && log_entries_bytes(entries@) == log_entries_bytes(ees.take(i as int)) && bytes@.len() == 16
                + log_entries_bytes(ees).len(),
        decreases count - i,
    {
        let ghost want = if found { ees[i as int] } else { arbitrary() };
        proof {
            if found {
                lemma_log_entries_prefix(ees, i as int);
                let w = log_entries_bytes(ees);
                let a = log_entries_bytes(ees.take(i as int + 1));
                lemma_at_split(bytes@, start as int, a, w.subrange(a.len() as int, w.len() as int));
                lemma_at_split(bytes@, start as int, log_entries_bytes(ees.take(i as int)), log_entry_bytes(want));
            }
        }
        let (e, q) = read_log_entry(bytes, p, Ghost(want))?;
        let ghost before = entries@;
        entries.push(e);
        proof {
            assert(entries@.drop_last() == before);
            lemma_at_join(bytes@, start as int, log_entries_bytes(before), log_entry_bytes(e));
            if found {
                lemma_log_entries_prefix(ees, i as int);
            }
        }
        p = q;
        i = i + 1;
    }
    proof {
        if found {
            assert(ees.take(ees.len() as int) == ees);
        }
    }
    if p != bytes.len() || cursor > entries.len() as u64 {
        return None;
    }
    let position = cursor as usize;
    proof {
        lemma_at_join(bytes@, 0, le_bytes(cursor as nat, 8), le_bytes(count as nat, 8));
        lemma_at_join(bytes@, 0, le_bytes(cursor as nat, 8) + le_bytes(count as nat, 8), log_entries_bytes(entries@));
        assert(log_bytes(position as nat, entries@) =~= bytes@);
    }
    Some((position, entries))
}

} // verus!
