//! What the debug endpoints decide and compute about the heap.

use crate::text::{decimal, decimal_string, lemma_decimal, number_of, plain_digits, string_views};
use vstd::prelude::*;
use vstd::string::*;

verus! {

/// The arena that stands for all arenas of the allocator.
pub const ALL_ARENAS: u64 = 4096;

/// What a request for a heap profile leads to.
#[derive(Debug)]
pub enum HeapDump {
    /// The allocator was built without profiling.
    NotCompiled,
    /// Profiling was not switched on at startup.
    NotEnabled,
    /// The profile is to be written to this path.
    WriteTo(String),
}

/// Where the heap profile of a process goes.
pub open spec fn dump_path(pid: u32, now_secs: u64) -> Seq<char> {
    "/tmp/jeprof."@ + decimal(pid as nat) + "."@ + decimal(now_secs as nat) + ".heap"@
}

/// Decides on a request for a heap profile. What the allocator does not say
/// counts as no.
pub fn heap_dump(
    compiled: Option<bool>,
    enabled: Option<bool>,
    pid: u32,
    now_secs: u64,
) -> (r: HeapDump)
    ensures
        match r {
            HeapDump::NotCompiled => compiled != Some(true),
            HeapDump::NotEnabled => compiled == Some(true) && enabled != Some(true),
            HeapDump::WriteTo(path) => compiled == Some(true) && enabled == Some(true) && path@ == dump_path(
                pid,
                now_secs,
            ),
        },
{
    if !compiled.unwrap_or(false) {
        return HeapDump::NotCompiled;
    }
    if !enabled.unwrap_or(false) {
        return HeapDump::NotEnabled;
    }
    let head = "/tmp/jeprof.".to_owned().concat(decimal_string(pid as u64).as_str());
    HeapDump::WriteTo(head.concat(".").concat(decimal_string(now_secs).as_str()).concat(".heap"))
}

/// The control that purges an arena.
pub open spec fn purge_name(arena: nat) -> Seq<char> {
    "arena."@ + decimal(arena) + ".purge"@
}

/// The control that purges an arena.
pub fn purge_control(arena: u64) -> (r: String)
    ensures
        r@ == purge_name(arena as nat),
{
    "arena.".to_owned().concat(decimal_string(arena).as_str()).concat(".purge")
}

/// The controls to purge one by one, after the one for all arenas was answered
/// with `code`: none if it succeeded.
pub fn purge_fallback(code: i32, arenas: u32) -> (r: Vec<String>)
    ensures
        r@.len() == if code == 0 {
            0
        } else {
            arenas as nat
        },
        forall|i: int| 0 <= i < r@.len() ==> (#[trigger] r@[i])@ == purge_name(i as nat),
{
    let mut names: Vec<String> = Vec::new();
    if code == 0 {
        return names;
    }
    let mut i: u32 = 0;
    while i < arenas
        invariant
            i <= arenas,
            names@.len() == i,
            forall|j: int| 0 <= j < i ==> (#[trigger] names@[j])@ == purge_name(j as nat),
        decreases arenas - i,
    {
        names.push(purge_control(i as u64));
        i += 1;
    }
    names
}

/// A reading of the allocator, which counts as zero if it fails. The failure
/// joins the errors, under the name of the reading.
pub fn stat_or_zero(name: &str, reading: Result<usize, String>, errors: &mut Vec<String>) -> (r: usize)
    ensures
        match reading {
            Ok(value) => r == value && string_views(final(errors)@) == string_views(old(errors)@),
            Err(e) => r == 0 && string_views(final(errors)@) == string_views(old(errors)@).push(
                name@ + ": "@ + e@,
            ),
        },
{
    match reading {
        Ok(value) => value,
        Err(e) => {
            errors.push(name.to_owned().concat(": ").concat(e.as_str()));
            assert(string_views(errors@) =~= string_views(old(errors)@).push(name@ + ": "@ + e@));
            0
        },
    }
}

/// What the allocator holds beyond what was asked of it.
pub fn fragmentation(active: usize, allocated: usize) -> (r: usize)
    ensures
        r == if active > allocated {
            active - allocated
        } else {
            0
        },
{
    active.saturating_sub(allocated)
}

/// What a purge gave back to the system.
pub fn freed(before_resident: usize, after_resident: usize) -> (r: usize)
    ensures
        r == if before_resident > after_resident {
            before_resident - after_resident
        } else {
            0
        },
{
    before_resident.saturating_sub(after_resident)
}

/// A heap profile is written only by an allocator that was built for it and told
/// to, and the path names the process and the moment.
pub proof fn lemma_heap_dump(
    compiled: Option<bool>,
    enabled: Option<bool>,
    pid: u32,
    now_secs: u64,
    r: HeapDump,
)
    requires
        call_ensures(heap_dump, (compiled, enabled, pid, now_secs), r),
    ensures
        r is NotCompiled <==> compiled != Some(true),
        r is NotEnabled <==> compiled == Some(true) && enabled != Some(true),
        r is WriteTo <==> compiled == Some(true) && enabled == Some(true),
        r matches HeapDump::WriteTo(path) ==> exists|p: Seq<char>, s: Seq<char>|
            #![trigger number_of(p), number_of(s)]
            {
                &&& path@ == "/tmp/jeprof."@ + p + "."@ + s + ".heap"@
                &&& number_of(p) == pid && plain_digits(p)
                &&& number_of(s) == now_secs && plain_digits(s)
            },
{
    lemma_decimal(pid as nat);
    lemma_decimal(now_secs as nat);
}

/// An arena is purged by its number.
pub proof fn lemma_purge_control(arena: u64, r: String)
    requires
        call_ensures(purge_control, (arena,), r),
    ensures
        exists|n: Seq<char>|
            #![trigger number_of(n)]
            r@ == "arena."@ + n + ".purge"@ && number_of(n) == arena && plain_digits(n),
{
    lemma_decimal(arena as nat);
}

/// Where the control for all arenas failed, every arena is purged, from the
/// first on; where it succeeded, none is.
pub proof fn lemma_purge_one_by_one(code: i32, arenas: u32, r: Vec<String>, i: int, name: String)
    requires
        call_ensures(purge_fallback, (code, arenas), r),
        call_ensures(purge_control, (i as u64,), name),
    ensures
        code == 0 ==> r@.len() == 0,
        code != 0 ==> r@.len() == arenas,
        code != 0 && 0 <= i < arenas ==> r@[i]@ == name@,
{
}

/// A reading that fails counts as zero and leaves a note; one that succeeds
/// counts as it is and leaves none. Earlier notes stay.
pub proof fn lemma_readings(name: &str, reading: Result<usize, String>, errors: &mut Vec<String>, r: usize)
    requires
        call_ensures(stat_or_zero, (name, reading, errors), r),
    ensures
        reading matches Ok(value) ==> r == value && final(errors)@.len() == old(errors)@.len(),
        reading matches Err(e) ==> r == 0 && final(errors)@.len() == old(errors)@.len() + 1 && final(errors)@[old(
            errors,
        )@.len() as int]@ == name@ + ": "@ + e@,
        forall|i: int| 0 <= i < old(errors)@.len() ==> (#[trigger] final(errors)@[i])@ == old(errors)@[i]@,
{
    let before = string_views(old(errors)@);
    let after = string_views(final(errors)@);
    let n = before.len() as int;
    assert(after.len() == if reading is Ok { n } else { n + 1 });
    if reading is Err {
        assert(after[n] == name@ + ": "@ + reading->Err_0@);
        assert(after[n] == final(errors)@[n]@);
    }
    assert forall|i: int| 0 <= i < n implies (#[trigger] final(errors)@[i])@ == old(errors)@[i]@ by {
        assert(after[i] == before[i]);
        assert(after[i] == final(errors)@[i]@);
    }
}

/// What is held beyond what was asked for makes up, with it, what is active; a
/// difference below zero counts as none.
pub proof fn lemma_differences(active: usize, allocated: usize, wasted: usize, given_back: usize)
    requires
        call_ensures(fragmentation, (active, allocated), wasted),
        call_ensures(freed, (active, allocated), given_back),
    ensures
        active >= allocated ==> wasted + allocated == active,
        active <= allocated ==> wasted == 0,
        given_back == wasted,
{
}

/// All arenas are purged by the number that the allocator sets apart for them.
pub proof fn lemma_purge_all(r: String)
    requires
        call_ensures(purge_control, (ALL_ARENAS,), r),
    ensures
        r@ == "arena."@ + seq!['4', '0', '9', '6'] + ".purge"@,
{
    reveal_with_fuel(decimal, 4);
    assert(decimal(4096) =~= seq!['4', '0', '9', '6']);
}

} // verus!
