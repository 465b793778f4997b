//! The ABI registry: a process-wide table mapping the byte-string names of
//! natively implemented runtime functions to their addresses. It is
//! populated once during startup and treated as read-only afterwards; the
//! relocation engine consults it to bind unresolved symbols.

use vstd::prelude::*;

verus! {

/// One natively implemented runtime function, registered under a stable
/// byte-string name. Immutable after registration.
pub struct AbiEntry {
    pub name: Vec<u8>,
    pub addr: usize,
}

/// Process-wide name-to-address table of native runtime functions.
pub struct AbiRegistry {
    pub entries: Vec<AbiEntry>,
}

/// The address the registry holds for `name`: the first entry whose name
/// matches exactly, if any.
pub open spec fn spec_lookup(entries: Seq<AbiEntry>, name: Seq<u8>) -> Option<usize>
    decreases entries.len(),
{
    if entries.len() == 0 {
        None
    } else if entries[0].name@ == name {
        Some(entries[0].addr)
    } else {
        spec_lookup(entries.drop_first(), name)
    }
}

/// No two registered entries carry the same name.
pub open spec fn distinct_names(entries: Seq<AbiEntry>) -> bool {
    forall|i: int, j: int| 0 <= i < j < entries.len() ==> entries[i].name@ != entries[j].name@
}

/// A lookup hits exactly when some entry carries the name.
pub proof fn lemma_lookup_some_iff_present(entries: Seq<AbiEntry>, name: Seq<u8>)
    ensures
        spec_lookup(entries, name) is Some <==> exists|i: int|
            0 <= i < entries.len() && entries[i].name@ == name,
    decreases entries.len(),
{
    if entries.len() > 0 {
        if entries[0].name@ == name {
        } else {
            lemma_lookup_some_iff_present(entries.drop_first(), name);
            if spec_lookup(entries, name) is Some {
                let i = choose|i: int|
                    0 <= i < entries.drop_first().len() && entries.drop_first()[i].name@ == name;
                assert(entries[i + 1].name@ == name);
            }
            if exists|i: int| 0 <= i < entries.len() && entries[i].name@ == name {
                let i = choose|i: int| 0 <= i < entries.len() && entries[i].name@ == name;
                assert(entries.drop_first()[i - 1].name@ == name);
            }
        }
    }
}

/// Lookup is referentially stable: any two lookups of the same name against
/// the same registry contents return the same address.
pub proof fn lemma_lookup_stable(
    entries: Seq<AbiEntry>,
    name: Seq<u8>,
    r1: Option<usize>,
    r2: Option<usize>,
)
    requires
        r1 == spec_lookup(entries, name),
        r2 == spec_lookup(entries, name),
    ensures
        r1 == r2,
{
}

/// Registering a further entry never disturbs a name that already resolves:
/// within a process lifetime an address handed out once stays valid.
pub proof fn lemma_register_preserves_lookup(entries: Seq<AbiEntry>, e: AbiEntry, name: Seq<u8>)
    requires
        spec_lookup(entries, name) is Some,
    ensures
        spec_lookup(entries.push(e), name) == spec_lookup(entries, name),
    decreases entries.len(),
{
    assert(entries.len() > 0);
    if entries[0].name@ == name {
        assert(entries.push(e)[0] == entries[0]);
    } else {
        assert(entries.push(e).drop_first() =~= entries.drop_first().push(e));
        lemma_register_preserves_lookup(entries.drop_first(), e, name);
    }
}

/// A name that does not resolve resolves after a push exactly when the new
/// entry carries it.
pub proof fn lemma_lookup_push_miss(entries: Seq<AbiEntry>, e: AbiEntry, name: Seq<u8>)
    requires
        spec_lookup(entries, name) is None,
    ensures
        spec_lookup(entries.push(e), name) == if e.name@ == name {
            Some(e.addr)
        } else {
            None::<usize>
        },
    decreases entries.len(),
{
    if entries.len() == 0 {
        assert(entries.push(e)[0] == e);
        assert(entries.push(e).drop_first() =~= Seq::<AbiEntry>::empty());
        if e.name@ != name {
            assert(spec_lookup(entries.push(e), name) == spec_lookup(
                Seq::<AbiEntry>::empty(),
                name,
            ));
            assert(spec_lookup(Seq::<AbiEntry>::empty(), name) is None);
        }
    } else {
        assert(entries[0].name@ != name);
        assert(spec_lookup(entries.drop_first(), name) is None);
        assert(entries.push(e)[0] == entries[0]);
        assert(entries.push(e).drop_first() =~= entries.drop_first().push(e));
        lemma_lookup_push_miss(entries.drop_first(), e, name);
        assert(spec_lookup(entries.push(e), name) == spec_lookup(
            entries.drop_first().push(e),
            name,
        ));
    }
}

/// Compares two byte strings for exact equality.
pub fn bytes_eq(a: &[u8], b: &[u8]) -> (r: bool)
    ensures
        r <==> a@ == b@,
{
    if a.len() != b.len() {
        return false;
    }
    let n = a.len();
    let mut i: usize = 0;
    while i < n
        invariant
            n == a@.len() == b@.len(),
            i <= n,
            forall|k: int| 0 <= k < i ==> a@[k] == b@[k],
        decreases n - i,
    {
        if a[i] != b[i] {
            return false;
        }
        i = i + 1;
    }
    proof {
        assert(a@ =~= b@);
    }
    true
}

impl AbiRegistry {
    /// All registered names are distinct.
    pub open spec fn wf(self) -> bool {
        distinct_names(self.entries@)
    }

    /// An empty registry.
    pub fn new() -> (r: AbiRegistry)
        ensures
            r.entries@.len() == 0,
            r.wf(),
    {
        AbiRegistry { entries: Vec::new() }
    }

    /// Exact byte-match lookup of a registered name.
    pub fn lookup(&self, name: &[u8]) -> (r: Option<usize>)
        ensures
            r == spec_lookup(self.entries@, name@),
    {
        let n = self.entries.len();
        let mut i: usize = 0;
        proof {
            assert(self.entries@.skip(0) =~= self.entries@);
        }
        while i < n
            invariant
                n == self.entries@.len(),
                i <= n,
                spec_lookup(self.entries@, name@) == spec_lookup(
                    self.entries@.skip(i as int),
                    name@,
                ),
            decreases n - i,
        {
            proof {
                assert(self.entries@.skip(i as int)[0] == self.entries@[i as int]);
                assert(self.entries@.skip(i as int).drop_first() =~= self.entries@.skip(
                    i as int + 1,
                ));
            }
            if bytes_eq(self.entries[i].name.as_slice(), name) {
                return Some(self.entries[i].addr);
            }
            i = i + 1;
        }
        proof {
            assert(self.entries@.skip(n as int) =~= Seq::<AbiEntry>::empty());
        }
        None
    }

    /// Registers `name` at `addr`. Names must be unique: a duplicate is
    /// rejected and leaves the table unchanged; a fresh name is appended
    /// and resolves to `addr` without disturbing any other name.
    pub fn register(&mut self, name: Vec<u8>, addr: usize) -> (ok: bool)
        requires
            old(self).wf(),
        ensures
            final(self).wf(),
            ok <==> spec_lookup(old(self).entries@, name@) is None,
            !ok ==> final(self).entries@ == old(self).entries@,
            ok ==> final(self).entries@.len() == old(self).entries@.len() + 1
                && final(self).entries@.last().name@ == name@ && final(self).entries@.last().addr
                == addr && final(self).entries@.drop_last() == old(self).entries@,
            ok ==> spec_lookup(final(self).entries@, name@) == Some(addr),
            forall|other: Seq<u8>|
                other != name@ ==> spec_lookup(final(self).entries@, other) == spec_lookup(
                    old(self).entries@,
                    other,
                ),
    {
        let hit = self.lookup(name.as_slice());
        match hit {
            Some(_) => false,
            None => {
                let ghost old_entries = self.entries@;
                let ghost gname = name@;
                let entry = AbiEntry { name, addr };
                self.entries.push(entry);
                proof {
                    assert(self.entries@.drop_last() =~= old_entries);
                    lemma_lookup_push_miss(old_entries, self.entries@.last(), gname);
                    assert forall|other: Seq<u8>|
                        other != gname implies spec_lookup(self.entries@, other) == spec_lookup(
                        old_entries,
                        other,
                    ) by {
                        if spec_lookup(old_entries, other) is Some {
                            lemma_register_preserves_lookup(
                                old_entries,
                                self.entries@.last(),
                                other,
                            );
                        } else {
                            lemma_lookup_push_miss(old_entries, self.entries@.last(), other);
                        }
                    }
                    lemma_lookup_some_iff_present(old_entries, gname);
                    assert forall|i: int, j: int|
                        0 <= i < j < self.entries@.len() implies self.entries@[i].name@
                        != self.entries@[j].name@ by {
                        if j == self.entries@.len() - 1 {
                            assert(self.entries@[i].name@ == old_entries[i].name@);
                        }
                    }
                }
                true
            },
        }
    }
}

/// The byte-string name of the greeting ABI call.
pub open spec fn hello_name() -> Seq<u8> {
    seq![104u8, 101u8, 108u8, 108u8, 111u8]
}

/// The byte-string name of the character-output ABI call.
pub open spec fn putchar_name() -> Seq<u8> {
    seq![112u8, 117u8, 116u8, 99u8, 104u8, 97u8, 114u8]
}

/// The byte-string name of the program-termination ABI call.
pub open spec fn exit_name() -> Seq<u8> {
    seq![101u8, 120u8, 105u8, 116u8]
}

/// Registers the built-in ABI calls (`hello`, `putchar`, `exit`) at the
/// addresses the runtime environment exposes for them. Executed during the
/// defined startup phase, before any ELF is loaded.
pub fn register_all_builtin_abis(
    reg: &mut AbiRegistry,
    hello_addr: usize,
    putchar_addr: usize,
    exit_addr: usize,
) -> (ok: bool)
    requires
        old(reg).wf(),
    ensures
        final(reg).wf(),
        ok ==> spec_lookup(final(reg).entries@, hello_name()) == Some(hello_addr),
        ok ==> spec_lookup(final(reg).entries@, putchar_name()) == Some(putchar_addr),
        ok ==> spec_lookup(final(reg).entries@, exit_name()) == Some(exit_addr),
        old(reg).entries@.len() == 0 ==> ok,
{
    let hello: Vec<u8> = vec![104u8, 101u8, 108u8, 108u8, 111u8];
    let putchar: Vec<u8> = vec![112u8, 117u8, 116u8, 99u8, 104u8, 97u8, 114u8];
    let exit: Vec<u8> = vec![101u8, 120u8, 105u8, 116u8];
    proof {
        assert(hello@ =~= hello_name());
        assert(putchar@ =~= putchar_name());
        assert(exit@ =~= exit_name());
        assert(hello_name() != putchar_name());
        assert(hello_name() != exit_name());
        assert(putchar_name() != exit_name());
    }
    let ok1 = reg.register(hello, hello_addr);
    let ok2 = reg.register(putchar, putchar_addr);
    let ok3 = reg.register(exit, exit_addr);
    ok1 && ok2 && ok3
}

} // verus!
