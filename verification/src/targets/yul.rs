//! Target for the Yul grammar, a grammar over Yul source text.
//!
//! Value counts, keyword-safe identifiers and the rule that every block opens
//! with a declaration are part of the grammar itself. The one semantic rule
//! left is variable scope, which [`ScopeFixer`] repairs: it keeps a stack of
//! scopes, one frame per block, registers every declared name in the
//! innermost frame (a name that is already in scope must be replaced by a
//! fresh one first) and rewrites every use of a name that is not in scope to
//! a name that is.

use vstd::prelude::*;

verus! {

/// The grammar target of the Yul grammar: a marker type that
/// names it.
pub struct Yul;

/// The names in scope, one frame per enclosing block, innermost last.
pub type Scopes = Seq<Seq<Seq<char>>>;

/// Whether `name` is declared in any enclosing frame.
pub open spec fn declared(scopes: Scopes, name: Seq<char>) -> bool {
    exists|f: int, i: int|
        0 <= f < scopes.len() && 0 <= i < scopes[f].len() && #[trigger] scopes[f][i] == name
}

/// The name that an out-of-scope use is rewritten to: the last name of the
/// innermost frame that declares any.
pub open spec fn innermost_name(scopes: Scopes) -> Option<Seq<char>>
    decreases scopes.len(),
{
    if scopes.len() == 0 {
        None
    } else if scopes.last().len() > 0 {
        Some(scopes.last().last())
    } else {
        innermost_name(scopes.drop_last())
    }
}

/// The frames after entering a block.
pub open spec fn entered(scopes: Scopes) -> Scopes {
    scopes.push(Seq::empty())
}

/// The frames after leaving a block (nothing changes outside every block).
pub open spec fn left(scopes: Scopes) -> Scopes {
    if scopes.len() > 0 {
        scopes.drop_last()
    } else {
        scopes
    }
}

/// The frames after registering `name` in the innermost one (outside every
/// block a declaration is not recorded).
pub open spec fn registered(scopes: Scopes, name: Seq<char>) -> Scopes {
    if scopes.len() > 0 {
        scopes.update(scopes.len() - 1, scopes.last().push(name))
    } else {
        scopes
    }
}

/// The name a use of `name` ends up with: itself when it is in scope,
/// otherwise the innermost declared name, if there is one.
pub open spec fn resolved_use(scopes: Scopes, name: Seq<char>) -> Option<Seq<char>> {
    if declared(scopes, name) {
        None
    } else {
        innermost_name(scopes)
    }
}

/// Repairs variable scope in a generated Yul tree, visited node by node.
pub struct ScopeFixer {
    scopes: Vec<Vec<String>>,
}

impl View for ScopeFixer {
    type V = Scopes;

    closed spec fn view(&self) -> Scopes {
        self.scopes@.map_values(|frame: Vec<String>| frame@.map_values(|n: String| n@))
    }
}

impl ScopeFixer {
    /// A fixer outside every block.
    pub fn new() -> (fixer: Self)
        ensures
            fixer@ == Seq::<Seq<Seq<char>>>::empty(),
    {
        let fixer = ScopeFixer { scopes: Vec::new() };
        assert(fixer@ =~= Seq::<Seq<Seq<char>>>::empty());
        fixer
    }

    /// Whether `name` is declared in any enclosing scope.
    pub fn in_scope(&self, name: &String) -> (r: bool)
        ensures
            r == declared(self@, name@),
    {
        let mut f: usize = 0;
        while f < self.scopes.len()
            invariant
                f <= self.scopes@.len(),
                forall|g: int, i: int|
                    0 <= g < f && 0 <= i < self@[g].len() ==> #[trigger] self@[g][i] != name@,
            decreases self.scopes.len() - f,
        {
            let frame = &self.scopes[f];
            let mut i: usize = 0;
            while i < frame.len()
                invariant
                    f < self.scopes@.len(),
                    frame == self.scopes@[f as int],
                    i <= frame@.len(),
                    forall|j: int| 0 <= j < i ==> #[trigger] self@[f as int][j] != name@,
                decreases frame.len() - i,
            {
                assert(self@[f as int][i as int] == frame@[i as int]@);
                if frame[i] == *name {
                    assert(self@[f as int][i as int] == name@);
                    return true;
                }
                i += 1;
            }
            assert forall|g: int, j: int|
                0 <= g < f + 1 && 0 <= j < self@[g].len() implies #[trigger] self@[g][j] != name@ by {
                if g == f {
                    assert(self@[f as int].len() == frame@.len());
                }
            }
            f += 1;
        }
        false
    }

    /// Any in-scope declared name, innermost frame first.
    pub fn pick_in_scope(&self) -> (r: Option<String>)
        ensures
            match r {
                Some(n) => innermost_name(self@) == Some(n@),
                None => innermost_name(self@) is None,
            },
    {
        let mut f: usize = self.scopes.len();
        assert(self@.take(f as int) =~= self@);
        while f > 0
            invariant
                f <= self.scopes@.len(),
                innermost_name(self@) == innermost_name(self@.take(f as int)),
            decreases f,
        {
            let frame = &self.scopes[f - 1];
            let ghost prefix = self@.take(f as int);
            assert(prefix.last() == self@[f - 1]);
            assert(prefix.drop_last() =~= self@.take(f - 1));
            if frame.len() > 0 {
                assert(self@[f - 1].last() == frame@[frame.len() - 1]@);
                return Some(frame[frame.len() - 1].clone());
            }
            f -= 1;
        }
        assert(self@.take(0) =~= Seq::<Seq<Seq<char>>>::empty());
        None
    }

    /// Enters a block: a new, empty innermost frame.
    pub fn enter_block(&mut self)
        ensures
            final(self)@ == entered(old(self)@),
    {
        self.scopes.push(Vec::new());
        proof {
            let frame = self.scopes@.last();
            assert(frame@.map_values(|n: String| n@) =~= Seq::<Seq<char>>::empty());
            assert forall|i: int| 0 <= i < old(self)@.len() implies self@[i] == old(self)@[i] by {
                assert(self.scopes@[i] == old(self).scopes@[i]);
            }
            assert(self@ =~= entered(old(self)@));
        }
    }

    /// Leaves a block: its frame and every name declared in it go.
    pub fn leave_block(&mut self)
        ensures
            final(self)@ == left(old(self)@),
    {
        let _ = self.scopes.pop();
        assert(self@ =~= left(old(self)@));
    }

    /// Declares `name` in the innermost frame, unless it is in scope already:
    /// then nothing changes and `false` asks for a fresh name to declare in
    /// its place.
    pub fn declare(&mut self, name: String) -> (kept: bool)
        ensures
            kept == !declared(old(self)@, name@),
            final(self)@ == if kept {
                registered(old(self)@, name@)
            } else {
                old(self)@
            },
    {
        if self.in_scope(&name) {
            return false;
        }
        let n = self.scopes.len();
        if n > 0 {
            let mut frame = self.scopes.pop().unwrap();
            let ghost old_frame = frame@;
            frame.push(name);
            self.scopes.push(frame);
            proof {
                let o = old(self)@;
                let last = o.len() - 1;
                assert(old(self).scopes@[last]@ == old_frame);
                assert(self.scopes@[last]@ == old_frame.push(name));
                assert(self@[last] =~= o[last].push(name@));
                assert forall|i: int| 0 <= i < last implies self@[i] == o[i] by {
                    assert(self.scopes@[i] == old(self).scopes@[i]);
                }
                assert(self@ =~= registered(o, name@));
            }
        }
        true
    }

    /// The name that a use of `name` is rewritten to: `None` when `name` is
    /// in scope, or when nothing is.
    pub fn resolve_use(&self, name: &String) -> (r: Option<String>)
        ensures
            match r {
                Some(n) => resolved_use(self@, name@) == Some(n@),
                None => resolved_use(self@, name@) is None,
            },
    {
        if self.in_scope(name) {
            None
        } else {
            self.pick_in_scope()
        }
    }
}

/// Leaving a block undoes entering it.
pub proof fn lemma_leave_undoes_enter(scopes: Scopes)
    ensures
        left(entered(scopes)) == scopes,
{
    assert(left(entered(scopes)) =~= scopes);
}

/// A name declared inside a block is in scope afterwards, and so is every
/// name that was in scope before.
pub proof fn lemma_declared_after_register(scopes: Scopes, name: Seq<char>, other: Seq<char>)
    requires
        scopes.len() > 0,
    ensures
        declared(registered(scopes, name), name),
        declared(scopes, other) ==> declared(registered(scopes, name), other),
{
    let r = registered(scopes, name);
    let last = scopes.len() - 1;
    assert(r[last][scopes[last].len() as int] == name);
    if declared(scopes, other) {
        let (f, i) = choose|f: int, i: int|
            0 <= f < scopes.len() && 0 <= i < scopes[f].len() && #[trigger] scopes[f][i] == other;
        assert(r[f][i] == other);
    }
}

/// The innermost name is in scope, and there is one whenever anything is in
/// scope: every use can be repaired once a name has been declared.
pub proof fn lemma_innermost_name(scopes: Scopes, name: Seq<char>)
    ensures
        innermost_name(scopes) matches Some(n) ==> declared(scopes, n),
        declared(scopes, name) ==> innermost_name(scopes) is Some,
    decreases scopes.len(),
{
    if scopes.len() > 0 {
        let prev = scopes.drop_last();
        lemma_innermost_name(prev, name);
        let last = scopes.len() - 1;
        if scopes.last().len() > 0 {
            assert(scopes[last][scopes[last].len() - 1] == scopes.last().last());
        } else {
            if let Some(n) = innermost_name(prev) {
                let (f, i) = choose|f: int, i: int|
                    0 <= f < prev.len() && 0 <= i < prev[f].len() && #[trigger] prev[f][i] == n;
                assert(scopes[f][i] == n);
            }
            if declared(scopes, name) {
                let (f, i) = choose|f: int, i: int|
                    0 <= f < scopes.len() && 0 <= i < scopes[f].len() && #[trigger] scopes[f][i] == name;
                assert(f != last);
                assert(prev[f][i] == name);
            }
        }
    }
}

/// After a use is resolved, the name it ends up with is in scope whenever
/// any name is.
pub proof fn lemma_resolved_use_in_scope(scopes: Scopes, name: Seq<char>, other: Seq<char>)
    requires
        declared(scopes, other),
    ensures
        declared(scopes, match resolved_use(scopes, name) {
            Some(n) => n,
            None => name,
        }),
{
    lemma_innermost_name(scopes, other);
}

/// Repairs the scope of every individual that an evolver creates, so that
/// mutation and crossover keep producing valid Yul.
pub struct YulFixHook;

} // verus!
