//! Reference names and how they are read: branch names, the resolution of
//! `HEAD`, and the branch `HEAD` is on.

use vstd::prelude::*;
use vstd::string::StringSliceAdditionalSpecFns;
use crate::object::ObjectId;
use crate::storage::{MemoryStorage, ReferenceTarget, StorageError, TargetView};

verus! {

/// How many symbolic links resolution follows before giving up.
pub const MAX_SYMBOLIC_DEPTH: usize = 8;

pub open spec fn head_name() -> Seq<char> {
    "HEAD"@
}

pub open spec fn branch_prefix() -> Seq<char> {
    "refs/heads/"@
}

/// The reference under which the operation log is kept.
pub open spec fn chain_name() -> Seq<char> {
    "refs/logs/chain"@
}

/// The references a user sees: all but the one that keeps the log.
pub open spec fn visible(refs: Map<Seq<char>, TargetView>) -> Map<Seq<char>, TargetView> {
    refs.remove(chain_name())
}

pub proof fn lemma_chain_is_no_user_name(name: Seq<char>)
    ensures
        chain_name() != head_name(),
        chain_name() != branch_ref(name),
{
    reveal_strlit("HEAD");
    reveal_strlit("refs/heads/");
    reveal_strlit("refs/logs/chain");
    assert(chain_name()[0] != head_name()[0]);
    assert(chain_name()[5] != branch_ref(name)[5]);
}

/// The reference that holds the branch `name`.
pub open spec fn branch_ref(name: Seq<char>) -> Seq<char> {
    branch_prefix() + name
}

pub proof fn lemma_head_is_no_branch(name: Seq<char>)
    ensures
        head_name() != branch_ref(name),
{
    reveal_strlit("HEAD");
    reveal_strlit("refs/heads/");
    assert(head_name()[0] != branch_ref(name)[0]);
}

/// Follows `name` through at most `depth` symbolic links to an object.
pub open spec fn resolve(refs: Map<Seq<char>, TargetView>, name: Seq<char>, depth: nat) -> Option<Seq<u8>>
    decreases depth,
{
    if name == chain_name() || !refs.contains_key(name) {
        None
    } else {
        match refs[name] {
            TargetView::Direct(id) => Some(id),
            TargetView::Symbolic(next) => if depth == 0 {
                None
            } else {
                resolve(refs, next, (depth - 1) as nat)
            },
        }
    }
}

/// The commit `HEAD` leads to.
pub open spec fn head_of(refs: Map<Seq<char>, TargetView>) -> Option<Seq<u8>> {
    resolve(refs, head_name(), MAX_SYMBOLIC_DEPTH as nat)
}

/// `s` begins with `p`.
pub open spec fn starts_with(s: Seq<char>, p: Seq<char>) -> bool {
    s.len() >= p.len() && s.subrange(0, p.len() as int) == p
}

/// The branch `HEAD` names, when `HEAD` is symbolic and names a branch.
pub open spec fn current_branch(refs: Map<Seq<char>, TargetView>) -> Option<Seq<char>> {
    if refs.contains_key(head_name()) {
        match refs[head_name()] {
            TargetView::Symbolic(t) => if starts_with(t, branch_prefix()) {
                Some(t.subrange(branch_prefix().len() as int, t.len() as int))
            } else {
                None
            },
            TargetView::Direct(_) => None,
        }
    } else {
        None
    }
}

/// Resolution never reads the log's reference.
pub proof fn lemma_resolve_visible(refs: Map<Seq<char>, TargetView>, name: Seq<char>, depth: nat)
    ensures
        resolve(refs, name, depth) == resolve(visible(refs), name, depth),
    decreases depth,
{
    if name != chain_name() && refs.contains_key(name) {
        if let TargetView::Symbolic(next) = refs[name] {
            if depth > 0 {
                lemma_resolve_visible(refs, next, (depth - 1) as nat);
            }
        }
    }
}

/// The current branch is read from `HEAD`, never from the log's reference.
pub proof fn lemma_current_branch_visible(refs: Map<Seq<char>, TargetView>)
    ensures
        current_branch(refs) == current_branch(visible(refs)),
{
    lemma_chain_is_no_user_name(Seq::empty());
}

pub proof fn lemma_current_branch_ref(refs: Map<Seq<char>, TargetView>)
    requires
        current_branch(refs) is Some,
    ensures
        refs.contains_key(head_name()),
        refs[head_name()] == TargetView::Symbolic(branch_ref(current_branch(refs)->Some_0)),
{
    let t = refs[head_name()]->Symbolic_0;
    assert(t =~= branch_ref(current_branch(refs)->Some_0));
}

pub proof fn lemma_current_branch_of_branch_ref(refs: Map<Seq<char>, TargetView>, b: Seq<char>)
    requires
        refs.contains_key(head_name()),
        refs[head_name()] == TargetView::Symbolic(branch_ref(b)),
    ensures
        current_branch(refs) == Some(b),
{
    let t = branch_ref(b);
    assert(t.subrange(0, branch_prefix().len() as int) =~= branch_prefix());
    assert(t.subrange(branch_prefix().len() as int, t.len() as int) =~= b);
}

/// Relies on `String::push_str`: appends the characters of `s`.
#[verifier::external_body]
fn push_str(out: &mut String, s: &str)
    ensures
        final(out)@ == old(out)@ + s@,
{
    out.push_str(s)
}

/// Relies on `str::strip_prefix` with a string pattern: the rest after the
/// prefix when `s` begins with it, otherwise nothing.
#[verifier::external_body]
fn strip_prefix<'a>(s: &'a str, prefix: &str) -> (r: Option<&'a str>)
    ensures
        r matches Some(rest) ==> s@ == prefix@ + rest@,
        r is None ==> !starts_with(s@, prefix@),
{
    s.strip_prefix(prefix)
}

/// The name of the reference that holds the branch `name`.
pub fn branch_ref_name(name: &str) -> (r: String)
    ensures
        r@ == branch_ref(name@),
{
    let mut s = "refs/heads/".to_owned();
    push_str(&mut s, name);
    s
}

/// Follows `name` to an object through at most `MAX_SYMBOLIC_DEPTH` links.
pub fn resolve_ref(storage: &MemoryStorage, name: &str) -> (r: Option<ObjectId>)
    requires
        storage.wf(),
    ensures
        r matches Some(id) ==> resolve(storage.refs(), name@, MAX_SYMBOLIC_DEPTH as nat) == Some(id@),
        r is None ==> resolve(storage.refs(), name@, MAX_SYMBOLIC_DEPTH as nat) is None,
{
    let mut current: String = name.to_owned();
    let mut depth: usize = MAX_SYMBOLIC_DEPTH;
    loop
        invariant
            storage.wf(),
            depth <= MAX_SYMBOLIC_DEPTH,
            resolve(storage.refs(), current@, depth as nat) == resolve(
                storage.refs(),
                name@,
                MAX_SYMBOLIC_DEPTH as nat,
            ),
        decreases depth,
    {
        if current == "refs/logs/chain".to_owned() {
            return None;
        }
        match storage.get_ref(current.as_str()) {
            None => {
                return None;
            },
            Some(ReferenceTarget::Direct(id)) => {
                return Some(id);
            },
            Some(ReferenceTarget::Symbolic(next)) => {
                if depth == 0 {
                    return None;
                }
                current = next;
                depth = depth - 1;
            },
        }
    }
}

/// The branch `HEAD` is on, if it names one.
pub fn branch_of_head(storage: &MemoryStorage) -> (r: Option<String>)
    requires
        storage.wf(),
    ensures
        r matches Some(b) ==> current_branch(storage.refs()) == Some(b@),
        r is None ==> current_branch(storage.refs()) is None,
{
    match storage.get_ref("HEAD") {
        Some(ReferenceTarget::Symbolic(t)) => match strip_prefix(t.as_str(), "refs/heads/") {
            Some(rest) => {
                proof {
                    assert(t@.subrange(0, branch_prefix().len() as int) =~= branch_prefix());
                    assert(t@.subrange(branch_prefix().len() as int, t@.len() as int) =~= rest@);
                }
                Some(rest.to_owned())
            },
            None => None,
        },
        _ => None,
    }
}

/// The byte `.`.
pub const DOT: u8 = 46;

/// The byte `-`.
pub const DASH: u8 = 45;

/// The byte `/`.
pub const SLASH: u8 = 47;

/// `b` holds two dots in a row.
pub open spec fn has_double_dot(b: Seq<u8>) -> bool {
    exists|i: int| 0 <= i && i + 1 < b.len() && b[i] == DOT && #[trigger] b[i + 1] == DOT
}

/// A control character or a space.
pub open spec fn is_blank_or_control(x: u8) -> bool {
    x <= 32 || x == 127
}

/// The naming rules for a branch, over the UTF-8 bytes of its name: not
/// empty, no space or ASCII control character, no `..`, no leading `-`, no
/// trailing `/`.
pub open spec fn valid_branch_name(b: Seq<u8>) -> bool {
    &&& b.len() > 0
    &&& forall|i: int| 0 <= i < b.len() ==> !is_blank_or_control(#[trigger] b[i])
    &&& !has_double_dot(b)
    &&& b[0] != DASH
    &&& b[b.len() - 1] != SLASH
}

/// Checks the naming rules for a branch.
pub fn check_branch_name(name: &str) -> (r: Result<(), StorageError>)
    ensures
        r is Ok <==> valid_branch_name(name.spec_bytes()),
        r matches Err(e) ==> e is InvalidRefName,
{
    let b = name.as_bytes();
    let n = b.len();
    if n == 0 || b[0] == DASH || b[n - 1] == SLASH {
        return Err(StorageError::InvalidRefName { name: name.to_owned() });
    }
    let mut i: usize = 0;
    while i < n
        invariant
            n == b@.len(),
            b@ == name.spec_bytes(),
            n > 0,
            i <= n,
            forall|k: int| 0 <= k < i ==> !is_blank_or_control(#[trigger] b@[k]),
            forall|k: int| 0 <= k && k + 1 < i ==> !(b@[k] == DOT && #[trigger] b@[k + 1] == DOT),
        decreases n - i,
    {
        if b[i] <= 32 || b[i] == 127 {
            assert(is_blank_or_control(b@[i as int]));
            return Err(StorageError::InvalidRefName { name: name.to_owned() });
        }
        if i > 0 && b[i - 1] == DOT && b[i] == DOT {
            assert(b@[(i - 1) as int] == DOT && b@[(i - 1) + 1] == DOT);
            return Err(StorageError::InvalidRefName { name: name.to_owned() });
        }
        i = i + 1;
    }
    Ok(())
}

} // verus!
