//! The translation state: which variables exist, and in state-machine mode
//! the declarations hoisted above the machine.
use vstd::prelude::*;
use crate::text::{texts, uint, slice, copy, is_uint, join3, join5, text_of, text_eq, contains_name};

verus! {

/// What a translation state holds.
pub struct CtxView {
    /// Variables declared so far, in order of first mention.
    pub declared: Seq<Seq<char>>,
    /// Whether the program is translated to a state machine.
    pub machine: bool,
    /// Declarations that go above the state machine.
    pub hoisted: Seq<Seq<char>>,
}

/// Translation state: which variables exist, whether the flat body (linear
/// mode) or the hoisted state machine is generated.
pub struct Ctx {
    declared: Vec<Vec<char>>,
    machine: bool,
    hoisted: Vec<Vec<char>>,
}

impl View for Ctx {
    type V = CtxView;

    closed spec fn view(&self) -> CtxView {
        CtxView { declared: texts(self.declared@), machine: self.machine, hoisted: texts(self.hoisted@) }
    }
}

/// A state that translation can reach from a fresh one: no variable is
/// declared twice, and there is one hoisted declaration per variable in
/// machine mode and none in linear mode.
pub open spec fn well_formed(c: CtxView) -> bool {
    &&& c.declared.no_duplicates()
    &&& c.machine ==> c.hoisted.len() == c.declared.len()
    &&& !c.machine ==> c.hoisted.len() == 0
}

/// `    let mut name: i64 = rhs;`
pub open spec fn let_line(name: Seq<char>, rhs: Seq<char>) -> Seq<char> {
    "    let mut "@ + name + ": i64 = "@ + rhs + ";"@
}

/// `    name = rhs;`
pub open spec fn assign_line(name: Seq<char>, rhs: Seq<char>) -> Seq<char> {
    "    "@ + name + " = "@ + rhs + ";"@
}

/// The integer literal `rhs` (digits, perhaps after a minus sign), when it is one.
pub open spec fn int_literal(rhs: Seq<char>) -> Option<Seq<char>> {
    let digits = if rhs.len() > 0 && rhs[0] == '-' { rhs.drop_first() } else { rhs };
    if uint(digits) { Some(rhs) } else { None }
}

/// The state and the statement after `name` is given the value `rhs`: the
/// first mention declares it (above the machine in machine mode), later
/// ones assign.
pub open spec fn bound(c: CtxView, name: Seq<char>, rhs: Seq<char>) -> (CtxView, Seq<char>) {
    if c.declared.contains(name) {
        (c, assign_line(name, rhs))
    } else if !c.machine {
        (CtxView { declared: c.declared.push(name), ..c }, let_line(name, rhs))
    } else if int_literal(rhs) is Some {
        (
            CtxView {
                declared: c.declared.push(name),
                hoisted: c.hoisted.push(let_line(name, rhs)),
                ..c
            },
            seq![],
        )
    } else {
        (
            CtxView {
                declared: c.declared.push(name),
                hoisted: c.hoisted.push(let_line(name, "0"@)),
                ..c
            },
            assign_line(name, rhs),
        )
    }
}

/// The error for a variable that was never given a value.
pub open spec fn unknown_variable(name: Seq<char>) -> Seq<char> {
    "unknown variable '"@ + name + "'"@
}

/// An integer literal (negative ones too) usable as a hoisted initializer.
pub fn const_init(rhs: &Vec<char>) -> (r: Option<Vec<char>>)
    ensures
        match r {
            Some(v) => int_literal(rhs@) == Some(v@),
            None => int_literal(rhs@) is None,
        },
{
    let digits = if rhs.len() > 0 && rhs[0] == '-' {
        slice(rhs, 1, rhs.len())
    } else {
        copy(rhs)
    };
    proof {
        if rhs@.len() > 0 && rhs@[0] == '-' {
            assert(digits@ =~= rhs@.drop_first());
        }
    }
    if is_uint(&digits) {
        Some(copy(rhs))
    } else {
        None
    }
}

impl Ctx {
    /// A fresh state, in machine mode or not.
    pub fn new(machine: bool) -> (c: Ctx)
        ensures
            c@ == (CtxView { declared: seq![], machine, hoisted: seq![] }),
    {
        let declared: Vec<Vec<char>> = Vec::new();
        let hoisted: Vec<Vec<char>> = Vec::new();
        assert(texts(declared@) =~= Seq::<Seq<char>>::empty());
        assert(texts(hoisted@) =~= Seq::<Seq<char>>::empty());
        Ctx { declared, machine, hoisted }
    }

    /// Whether the state is in machine mode.
    pub fn is_machine(&self) -> (b: bool)
        ensures
            b == self@.machine,
    {
        self.machine
    }

    /// Whether `name` has been declared.
    pub fn is_declared(&self, name: &Vec<char>) -> (b: bool)
        ensures
            b == self@.declared.contains(name@),
    {
        contains_name(&self.declared, name)
    }

    /// The hoisted declarations, in order.
    pub fn hoisted_lines(&self) -> (r: &Vec<Vec<char>>)
        ensures
            texts(r@) == self@.hoisted,
    {
        &self.hoisted
    }

    /// A state is always well formed.
    #[verifier::type_invariant]
    pub(crate) open spec fn inv(self) -> bool {
        well_formed(self@)
    }

    /// First mention declares (hoisted in machine mode), the rest just assign.
    pub fn bind(&mut self, name: &Vec<char>, rhs: &Vec<char>) -> (out: Vec<char>)
        ensures
            (final(self)@, out@) == bound(old(self)@, name@, rhs@),
    {
        proof {
            use_type_invariant(&*self);
        }
        if contains_name(&self.declared, name) {
            return join5("    ", name, " = ", rhs, ";");
        }
        let mut old = Ctx::new(self.machine);
        std::mem::swap(self, &mut old);
        let ghost before = old@;
        let Ctx { mut declared, machine, mut hoisted } = old;
        declared.push(copy(name));
        assert(texts(declared@) =~= before.declared.push(name@));
        let out = if machine {
            // with jumps, textual order no longer equals execution order,
            // so every variable is created up front with a safe value;
            // constant initializers ride along in the hoisted `let`,
            // everything else gets assigned at the actual site
            match const_init(rhs) {
                Some(v) => {
                    let line = join5("    let mut ", name, ": i64 = ", &v, ";");
                    hoisted.push(line);
                    assert(texts(hoisted@) =~= before.hoisted.push(line@));
                    if text_eq(&v, rhs) {
                        Vec::new()
                    } else {
                        join5("    ", name, " = ", rhs, ";")
                    }
                },
                None => {
                    let zero = text_of("0");
                    let line = join5("    let mut ", name, ": i64 = ", &zero, ";");
                    hoisted.push(line);
                    assert(texts(hoisted@) =~= before.hoisted.push(line@));
                    join5("    ", name, " = ", rhs, ";")
                },
            }
        } else {
            join5("    let mut ", name, ": i64 = ", rhs, ";")
        };
        proof {
            let d = before.declared.push(name@);
            assert forall|i: int, j: int| 0 <= i < d.len() && 0 <= j < d.len() && i != j implies d[i] != d[j] by {
                if i < before.declared.len() {
                    assert(d[i] == before.declared[i]);
                }
                if j < before.declared.len() {
                    assert(d[j] == before.declared[j]);
                }
            }
        }
        *self = Ctx { declared, machine, hoisted };
        out
    }

    /// `Ok` when `name` has been declared, else the error that says so.
    pub fn require_declared(&self, name: &Vec<char>) -> (r: Result<(), Vec<char>>)
        ensures
            match r {
                Ok(()) => self@.declared.contains(name@),
                Err(m) => !self@.declared.contains(name@) && m@ == unknown_variable(name@),
            },
    {
        if contains_name(&self.declared, name) {
            Ok(())
        } else {
            Err(join3("unknown variable '", name, "'"))
        }
    }
}

/// A copy of each text.
fn copy_all(v: &Vec<Vec<char>>) -> (r: Vec<Vec<char>>)
    ensures
        texts(r@) == texts(v@),
{
    let mut r: Vec<Vec<char>> = Vec::new();
    let mut i: usize = 0;
    while i < v.len()
        invariant
            i <= v.len(),
            texts(r@) == texts(v@).take(i as int),
        decreases v.len() - i,
    {
        let ghost prev = texts(r@);
        let t = copy(&v[i]);
        r.push(t);
        assert(texts(r@) =~= prev.push(v@[i as int]@));
        i = i + 1;
        assert(texts(v@).take(i as int) =~= texts(v@).take(i - 1).push(v@[i - 1]@));
    }
    assert(texts(v@).take(v.len() as int) =~= texts(v@));
    r
}

impl Clone for Ctx {
    /// A state with the same declarations, mode and hoisted lines.
    fn clone(&self) -> (c: Self)
        ensures
            c@ == self@,
    {
        proof {
            use_type_invariant(self);
        }
        let declared = copy_all(&self.declared);
        let hoisted = copy_all(&self.hoisted);
        Ctx { declared, machine: self.machine, hoisted }
    }
}

} // verus!
