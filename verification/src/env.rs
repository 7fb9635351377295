//! The environment: the variables of one invocation, and their expansion in
//! text.

use vstd::prelude::*;
use crate::ast::CondView;
use crate::ast::Condition;
use crate::seqs::first_index;
use crate::seqs::lemma_first_index;
use crate::seqs::lemma_first_index_is;
use crate::text::equal;
use crate::text::less;
use crate::text::lex_less;
use crate::text::replace;
use crate::text::replace_all;

verus! {

/// The bindings of an environment: pairs of a name and its value, in the order
/// in which expansion takes them.
pub type Bindings = Seq<(Seq<char>, Seq<char>)>;

/// The bindings of the name `name`.
pub open spec fn named(name: Seq<char>) -> spec_fn((Seq<char>, Seq<char>)) -> bool {
    |e: (Seq<char>, Seq<char>)| e.0 == name
}

/// The bindings whose name has fewer than `n` characters.
pub open spec fn shorter_than(n: nat) -> spec_fn((Seq<char>, Seq<char>)) -> bool {
    |e: (Seq<char>, Seq<char>)| e.0.len() < n
}

/// Where `name` is bound in `b`, or the length of `b` where it is not.
pub open spec fn index_of(b: Bindings, name: Seq<char>) -> int {
    first_index(b, named(name))
}

/// The number of leading bindings whose name has at least `n` characters.
pub open spec fn rank(b: Bindings, n: nat) -> int {
    first_index(b, shorter_than(n))
}

/// The value bound to `name`, if any.
pub open spec fn lookup(b: Bindings, name: Seq<char>) -> Option<Seq<char>> {
    if index_of(b, name) < b.len() {
        Some(b[index_of(b, name)].1)
    } else {
        None
    }
}

/// `b` after `name` was bound to `value`. A name that is bound already keeps
/// its place and gets the new value. A new name goes behind the names that are
/// at least as long and before the shorter ones.
pub open spec fn bind(b: Bindings, name: Seq<char>, value: Seq<char>) -> Bindings {
    if index_of(b, name) < b.len() {
        b.update(index_of(b, name), (name, value))
    } else {
        b.insert(rank(b, name.len()), (name, value))
    }
}

/// No name is bound twice, and no name stands before a longer one.
pub open spec fn well_formed(b: Bindings) -> bool {
    &&& forall|i: int, j: int| 0 <= i < j < b.len() ==> (#[trigger] b[i]).0 != (#[trigger] b[j]).0
    &&& forall|i: int, j: int|
        0 <= i <= j < b.len() ==> (#[trigger] b[i]).0.len() >= (#[trigger] b[j]).0.len()
}

/// How a variable is written in text: a dollar sign and the name.
pub open spec fn pattern(name: Seq<char>) -> Seq<char> {
    seq!['$'] + name
}

/// `text` after every binding of `b`, taken in order, has replaced the
/// occurrences of its variable by its value.
pub open spec fn expand_all(b: Bindings, text: Seq<char>) -> Seq<char>
    decreases b.len(),
{
    if b.len() == 0 {
        text
    } else {
        expand_all(b.skip(1), replace_all(text, pattern(b[0].0), b[0].1))
    }
}

/// Whether a condition holds under `b`: both operands are expanded, then
/// compared. `>` and `<` compare lexicographically. An operator that is none of
/// the four makes the condition false.
pub open spec fn holds(b: Bindings, cond: CondView) -> bool {
    let left = expand_all(b, cond.left);
    let right = expand_all(b, cond.right);
    if cond.op == seq!['=', '='] {
        left == right
    } else if cond.op == seq!['!', '='] {
        left != right
    } else if cond.op == seq!['>'] {
        lex_less(right, left)
    } else if cond.op == seq!['<'] {
        lex_less(left, right)
    } else {
        false
    }
}

/// The bindings that a vector of pairs of strings holds.
pub open spec fn bindings_of(v: Seq<(String, String)>) -> Bindings {
    Seq::new(v.len(), |i: int| (v[i].0@, v[i].1@))
}

/// Binding a name keeps the bindings well formed.
pub proof fn lemma_bind_well_formed(b: Bindings, name: Seq<char>, value: Seq<char>)
    requires
        well_formed(b),
    ensures
        well_formed(bind(b, name, value)),
{
    let by_name = named(name);
    let shorter = shorter_than(name.len());
    lemma_first_index(b, by_name);
    lemma_first_index(b, shorter);
    let r = bind(b, name, value);
    let i = index_of(b, name);
    if i < b.len() {
        assert(by_name(b[i]));
        assert forall|x: int, y: int| 0 <= x < y < r.len() implies (#[trigger] r[x]).0 != (
        #[trigger] r[y]).0 by {
            assert(r[x].0 == b[x].0);
            assert(r[y].0 == b[y].0);
        }
        assert forall|x: int, y: int| 0 <= x <= y < r.len() implies (#[trigger] r[x]).0.len() >= (
        #[trigger] r[y]).0.len() by {
            assert(r[x].0 == b[x].0);
            assert(r[y].0 == b[y].0);
        }
    } else {
        let p = rank(b, name.len());
        assert forall|x: int| 0 <= x < b.len() implies (#[trigger] b[x]).0 != name by {
            assert(!by_name(b[x]));
        }
        assert forall|x: int| 0 <= x < p implies (#[trigger] b[x]).0.len() >= name.len() by {
            assert(!shorter(b[x]));
        }
        assert forall|x: int| p <= x < b.len() implies (#[trigger] b[x]).0.len() < name.len() by {
            assert(shorter(b[p]));
            assert(b[p].0.len() >= b[x].0.len());
        }
        assert forall|x: int, y: int| 0 <= x < y < r.len() implies (#[trigger] r[x]).0 != (
        #[trigger] r[y]).0 by {
            let bx = if x < p { x } else { x - 1 };
            let by = if y < p { y } else { y - 1 };
            if x != p && y != p {
                assert(r[x] == b[bx]);
                assert(r[y] == b[by]);
            } else if x == p {
                assert(r[y] == b[by]);
            } else {
                assert(r[x] == b[bx]);
            }
        }
        assert forall|x: int, y: int| 0 <= x <= y < r.len() implies (#[trigger] r[x]).0.len() >= (
        #[trigger] r[y]).0.len() by {
            let bx = if x < p { x } else { x - 1 };
            let by = if y < p { y } else { y - 1 };
            if x != p && y != p {
                assert(r[x] == b[bx]);
                assert(r[y] == b[by]);
            } else if x == p && y != p {
                assert(r[y] == b[by]);
            } else if y == p && x != p {
                assert(r[x] == b[bx]);
            }
        }
    }
}

/// The variables of one invocation. One environment is shared by everything
/// that runs: there is no scoping.
#[derive(Debug)]
pub struct Environment {
    vars: Vec<(String, String)>,
}

impl View for Environment {
    type V = Bindings;

    closed spec fn view(&self) -> Bindings {
        bindings_of(self.vars@)
    }
}

impl Clone for Environment {
    /// An environment of its own with the same bindings.
    fn clone(&self) -> (r: Self)
        ensures
            r@ == self@,
    {
        proof {
            use_type_invariant(self);
        }
        let mut vars: Vec<(String, String)> = Vec::new();
        let n = self.vars.len();
        let mut i: usize = 0;
        while i < n
            invariant
                n == self.vars.len(),
                i <= n,
                i == vars.len(),
                forall|j: int| 0 <= j < i ==> bindings_of(vars@)[j] == self@[j],
            decreases n - i,
        {
            let ghost before = vars@;
            vars.push((self.vars[i].0.clone(), self.vars[i].1.clone()));
            assert forall|j: int| 0 <= j < i + 1 implies bindings_of(vars@)[j] == self@[j] by {
                if j < i {
                    assert(bindings_of(before)[j] == self@[j]);
                }
            }
            i += 1;
        }
        assert(bindings_of(vars@) =~= self@);
        Environment { vars }
    }
}

impl Environment {
    /// What holds of every environment: no name is bound twice, and no name
    /// stands before a longer one.
    #[verifier::type_invariant]
    pub open spec fn inv(&self) -> bool {
        well_formed(self@)
    }

    /// An environment in which nothing is bound.
    pub fn new() -> (r: Self)
        ensures
            r@ == Seq::<(Seq<char>, Seq<char>)>::empty(),
            well_formed(r@),
    {
        let r = Environment { vars: Vec::new() };
        assert(r@ =~= Seq::<(Seq<char>, Seq<char>)>::empty());
        r
    }

    /// Binds `key` to `value`. The last write wins.
    pub fn set(&mut self, key: String, value: String)
        ensures
            final(self)@ == bind(old(self)@, key@, value@),
            well_formed(final(self)@),
    {
        proof {
            use_type_invariant(&*self);
        }
        let ghost before = self@;
        let ghost name = key@;
        let ghost val = value@;
        let mut vars: Vec<(String, String)> = Vec::new();
        core::mem::swap(&mut self.vars, &mut vars);
        let n = vars.len();
        let mut i: usize = 0;
        while i < n && !(vars[i].0 == key)
            invariant
                n == vars.len(),
                i <= n,
                bindings_of(vars@) == before,
                name == key@,
                forall|j: int| 0 <= j < i ==> !named(name)(#[trigger] before[j]),
            decreases n - i,
        {
            i += 1;
        }
        proof {
            lemma_first_index_is(before, named(name), i as int);
            lemma_bind_well_formed(before, name, val);
        }
        if i < n {
            vars.set(i, (key, value));
        } else {
            let width = key.as_str().unicode_len();
            let mut p: usize = 0;
            while p < n && vars[p].0.as_str().unicode_len() >= width
                invariant
                    n == vars.len(),
                    p <= n,
                    bindings_of(vars@) == before,
                    width == name.len(),
                    forall|j: int| 0 <= j < p ==> !shorter_than(name.len())(#[trigger] before[j]),
                decreases n - p,
            {
                p += 1;
            }
            proof {
                lemma_first_index_is(before, shorter_than(name.len()), p as int);
            }
            vars.insert(p, (key, value));
        }
        assert(bindings_of(vars@) =~= bind(before, name, val));
        self.vars = vars;
    }

    /// The value bound to `key`, if any.
    pub fn get(&self, key: &str) -> (r: Option<String>)
        ensures
            match lookup(self@, key@) {
                Some(value) => r is Some && r->0@ == value,
                None => r is None,
            },
    {
        let n = self.vars.len();
        let mut i: usize = 0;
        while i < n && !equal(self.vars[i].0.as_str(), key)
            invariant
                n == self.vars.len(),
                i <= n,
                forall|j: int| 0 <= j < i ==> !named(key@)(#[trigger] self@[j]),
            decreases n - i,
        {
            i += 1;
        }
        proof {
            lemma_first_index_is(self@, named(key@), i as int);
        }
        if i < n {
            Some(self.vars[i].1.clone())
        } else {
            None
        }
    }

    /// Replaces in `text` every `$name` of every bound name by its value, one
    /// binding after the other. What no binding matches stays as it is.
    pub fn expand(&self, text: &str) -> (r: String)
        ensures
            r@ == expand_all(self@, text@),
    {
        let mut result = String::from_str(text);
        let n = self.vars.len();
        let mut i: usize = 0;
        assert(self@.skip(0) =~= self@);
        while i < n
            invariant
                n == self.vars.len(),
                i <= n,
                expand_all(self@, text@) == expand_all(self@.skip(i as int), result@),
            decreases n - i,
        {
            proof {
                reveal_strlit("$");
            }
            let pat = String::from_str("$").concat(self.vars[i].0.as_str());
            assert(pat@ =~= pattern(self@[i as int].0));
            result = replace(result.as_str(), pat.as_str(), self.vars[i].1.as_str());
            assert(self@.skip(i as int).skip(1) =~= self@.skip(i as int + 1));
            i += 1;
        }
        result
    }

    /// Whether `cond` holds: both operands are expanded, then compared.
    pub fn eval_condition(&self, cond: &Condition) -> (r: bool)
        ensures
            r == holds(self@, cond@),
    {
        let left = self.expand(cond.left.as_str());
        let right = self.expand(cond.right.as_str());
        let op = cond.op.as_str();
        proof {
            reveal_strlit("==");
            reveal_strlit("!=");
            reveal_strlit(">");
            reveal_strlit("<");
            assert("=="@ =~= seq!['=', '=']);
            assert("!="@ =~= seq!['!', '=']);
            assert(">"@ =~= seq!['>']);
            assert("<"@ =~= seq!['<']);
        }
        if equal(op, "==") {
            left == right
        } else if equal(op, "!=") {
            !(left == right)
        } else if equal(op, ">") {
            less(right.as_str(), left.as_str())
        } else if equal(op, "<") {
            less(left.as_str(), right.as_str())
        } else {
            false
        }
    }
}

} // verus!
