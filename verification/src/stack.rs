use vstd::prelude::*;

use crate::ast::Type;

verus! {

/// A frame of the compiler's stack: where its variables start.
pub struct StackFrame {
    /// Start relative to the compiler's stack.
    pub scope: u32,
}

impl StackFrame {
    /// A frame at scope 0.
    pub fn new() -> (f: StackFrame)
        ensures
            f.scope == 0,
    {
        StackFrame { scope: 0 }
    }
}

/// Total size in bytes of the variables `d`.
pub open spec fn sizes(d: Seq<(String, u32, Type)>) -> int
    decreases d.len(),
{
    if d.len() == 0 {
        0
    } else {
        sizes(d.drop_last()) + d.last().2.spec_size()
    }
}

/// Number of variables kept when the variables of the scopes at or above
/// `scope` are removed from the top of `d`.
pub open spec fn kept_len(d: Seq<(String, u32, Type)>, scope: u32) -> nat
    decreases d.len(),
{
    if d.len() == 0 {
        0
    } else if d.last().1 < scope {
        d.len()
    } else {
        kept_len(d.drop_last(), scope)
    }
}

/// The most recent variable named `name`: its offset below the frame base
/// (the sizes of all variables up to and including it) and its type.
pub open spec fn find_in(d: Seq<(String, u32, Type)>, name: Seq<char>) -> Option<(u32, Type)>
    decreases d.len(),
{
    if d.len() == 0 {
        None
    } else if d.last().0@ == name {
        Some((sizes(d) as u32, d.last().2))
    } else {
        find_in(d.drop_last(), name)
    }
}

/// Sizes are non-negative and grow with the prefix.
pub proof fn lemma_sizes_prefix(d: Seq<(String, u32, Type)>, k: int)
    requires
        0 <= k <= d.len(),
    ensures
        0 <= sizes(d.take(k)) <= sizes(d),
    decreases d.len(),
{
    if k < d.len() {
        assert(d.drop_last().take(k) =~= d.take(k));
        lemma_sizes_prefix(d.drop_last(), k);
    } else {
        assert(d.take(k) =~= d);
        if d.len() > 0 {
            lemma_sizes_prefix(d.drop_last(), 0);
        }
    }
}

/// `kept_len` keeps a prefix, whose removed part is all at `scope` or above.
pub proof fn lemma_kept_len(d: Seq<(String, u32, Type)>, scope: u32)
    ensures
        kept_len(d, scope) <= d.len(),
        forall|i: int| kept_len(d, scope) <= i < d.len() ==> d[i].1 >= scope,
        kept_len(d, scope) > 0 ==> d[kept_len(d, scope) - 1].1 < scope,
    decreases d.len(),
{
    if d.len() > 0 && d.last().1 >= scope {
        lemma_kept_len(d.drop_last(), scope);
        assert forall|i: int| kept_len(d, scope) <= i < d.len() implies d[i].1 >= scope by {
            if i < d.len() - 1 {
                assert(d[i] == d.drop_last()[i]);
            }
        }
        if kept_len(d, scope) > 0 {
            assert(d[kept_len(d, scope) - 1] == d.drop_last()[kept_len(d, scope) - 1]);
        }
    }
}

/// Leaving a scope undoes it: when every variable of `d` was declared in a
/// scope below `scope` and every variable of `e` in `scope` or deeper,
/// removing the variables of `scope` and deeper from `d + e` leaves `d`,
/// and the bytes removed are the size of `e`.
pub proof fn law_pop_undoes_scope(d: Seq<(String, u32, Type)>, e: Seq<(String, u32, Type)>, scope: u32)
    requires
        forall|i: int| 0 <= i < d.len() ==> #[trigger] d[i].1 < scope,
        forall|i: int| 0 <= i < e.len() ==> #[trigger] e[i].1 >= scope,
    ensures
        (d + e).take(kept_len(d + e, scope) as int) == d,
        sizes(d + e) - sizes(d) == sizes(e),
    decreases e.len(),
{
    if e.len() == 0 {
        assert(d + e =~= d);
        if d.len() > 0 {
            assert(d[d.len() - 1].1 < scope);
        }
        assert(kept_len(d, scope) == d.len());
        assert(d.take(d.len() as int) =~= d);
        assert((d + e).take(kept_len(d + e, scope) as int) == d);
    } else {
        let e1 = e.drop_last();
        assert((d + e).drop_last() =~= d + e1);
        assert((d + e).last() == e.last());
        assert(e[e.len() - 1].1 >= scope);
        law_pop_undoes_scope(d, e1, scope);
        assert(kept_len(d + e, scope) == kept_len(d + e1, scope));
        lemma_kept_len(d + e1, scope);
        assert(kept_len(d + e1, scope) == d.len());
        assert((d + e).take(d.len() as int) =~= d);
        assert((d + e).take(kept_len(d + e, scope) as int) == d);
    }
}

/// A variable just declared is the one found under its name: its offset is
/// the size of all variables with it, and its type is its own.
pub proof fn law_find_after_push(d: Seq<(String, u32, Type)>, name: String, scope: u32, t: Type)
    ensures
        find_in(d.push((name, scope, t)), name@) == Some(((sizes(d) + t.spec_size()) as u32, t)),
{
    assert(d.push((name, scope, t)).drop_last() =~= d);
}

/// The variables the compiler has placed on the stack of the current
/// function, with the scope each was declared in.
pub struct Stack {
    /// name, scope, type
    data: Vec<(String, u32, Type)>,
    pub scope: u32,
    size: u32,
}

impl Stack {
    /// The variables, oldest first.
    pub closed spec fn vars(&self) -> Seq<(String, u32, Type)> {
        self.data@
    }

    /// The current scope depth.
    pub closed spec fn spec_scope(&self) -> u32 {
        self.scope
    }

    /// The number of bytes the variables take.
    pub closed spec fn spec_size(&self) -> u32 {
        self.size
    }

    /// The recorded size is the total size of the variables.
    pub closed spec fn wf(&self) -> bool {
        self.size == sizes(self.data@)
    }

    /// An empty stack at scope 0.
    pub fn new() -> (s: Stack)
        ensures
            s.wf(),
            s.vars() == Seq::<(String, u32, Type)>::empty(),
            s.spec_scope() == 0,
    {
        Stack { data: Vec::new(), scope: 0, size: 0 }
    }

    /// The number of bytes the variables take.
    pub fn size(&self) -> (r: u32)
        requires
            self.wf(),
        ensures
            r == sizes(self.vars()),
    {
        self.size
    }

    /// Removes all the variables declared in the current scope (or deeper)
    /// and returns how many bytes should be removed from the stack.
    pub fn pop(&mut self) -> (offset: u32)
        requires
            old(self).wf(),
        ensures
            final(self).wf(),
            final(self).spec_scope() == old(self).spec_scope(),
            final(self).vars() == old(self).vars().take(kept_len(old(self).vars(), old(self).spec_scope()) as int),
            offset == sizes(old(self).vars()) - sizes(final(self).vars()),
    {
        let ghost d0 = self.data@;
        let ghost s0 = self.scope;
        let mut offset: u32 = 0;
        proof {
            assert(d0.take(d0.len() as int) =~= d0);
        }
        while self.data.len() > 0
            invariant_except_break
                self.scope == s0,
                self.data@ == d0.take(self.data@.len() as int),
                self.data@.len() <= d0.len(),
                kept_len(d0, self.scope) == kept_len(self.data@, self.scope),
                offset == sizes(d0) - sizes(self.data@),
                self.size == sizes(d0),
                0 <= sizes(self.data@) <= sizes(d0),
            ensures
                self.scope == s0,
                self.data@ == d0.take(kept_len(d0, self.scope) as int),
                offset == sizes(d0) - sizes(self.data@),
                self.size == sizes(d0),
                0 <= sizes(self.data@) <= sizes(d0),
            decreases self.data@.len(),
        {
            let n = self.data.len();
            let s = self.data[n - 1].1;
            let t = self.data[n - 1].2;
            if s < self.scope {
                break;
            }
            let ghost before = self.data@;
            let sz: u32 = t.size();
            proof {
                lemma_sizes_prefix(before, before.len() - 1);
                assert(before.take(before.len() - 1) =~= before.drop_last());
            }
            offset = offset + sz;
            self.data.pop();
            proof {
                assert(self.data@ =~= before.drop_last());
                assert(d0.take(self.data@.len() as int) =~= before.drop_last());
                lemma_sizes_prefix(self.data@, 0);
            }
        }
        self.size = self.size - offset;
        offset
    }

    /// Sets the scope depth; the variables stay.
    pub fn set_scope(&mut self, scope: u32)
        requires
            old(self).wf(),
        ensures
            final(self).wf(),
            final(self).spec_scope() == scope,
            final(self).vars() == old(self).vars(),
    {
        self.scope = scope;
    }

    /// The current scope depth.
    pub fn scope(&self) -> (r: u32)
        ensures
            r == self.spec_scope(),
    {
        self.scope
    }

    /// Records a variable declared in the current scope.
    pub fn push(&mut self, name: String, typ: Type)
        requires
            old(self).wf(),
            sizes(old(self).vars()) + typ.spec_size() <= u32::MAX,
        ensures
            final(self).wf(),
            final(self).spec_scope() == old(self).spec_scope(),
            final(self).vars() == old(self).vars().push((name, old(self).spec_scope(), typ)),
    {
        let ghost d0 = self.data@;
        self.data.push((name, self.scope, typ));
        proof {
            assert(self.data@.drop_last() =~= d0);
        }
        let of: u32 = typ.size();
        self.size = self.size + of;
    }

    /// The offset below the frame base and the type of the most recent
    /// variable named `var`.
    pub fn find(&self, var: &String) -> (r: Option<(u32, Type)>)
        requires
            self.wf(),
        ensures
            r == find_in(self.vars(), var@),
    {
        let ghost d = self.data@;
        let mut sz: u32 = 0;
        let mut i = self.data.len();
        proof {
            assert(d.take(d.len() as int) =~= d);
        }
        while i > 0
            invariant
                i <= d.len(),
                d == self.data@,
                self.wf(),
                find_in(d, var@) == find_in(d.take(i as int), var@),
                sz == sizes(d) - sizes(d.take(i as int)),
            decreases i,
        {
            let ghost pre = d.take(i as int);
            proof {
                lemma_sizes_prefix(d, i as int);
                lemma_sizes_prefix(d, i - 1);
                assert(pre.drop_last() =~= d.take(i - 1));
                assert(pre.last() == d[i - 1]);
            }
            if self.data[i - 1].0 == *var {
                return Some((self.size - sz, self.data[i - 1].2));
            }
            let var_sz: u32 = self.data[i - 1].2.size();
            sz = sz + var_sz;
            i = i - 1;
        }
        None
    }
}

} // verus!
