use vstd::prelude::*;

use id_arena::Arena;

use super::node::{lemma_nodes_push, lemma_nodes_types_grow, node_value_ok, nodes_wf, Node};
use crate::symbols::symbol_table::{arena_ident, arena_items, new_symbol_arena};
use crate::symbols::symbol_table::SymbolValueItem;
use super::types::{builtin_at, builtin_index, type_children, BuiltinType, TypeSignature, TypeSignatureValue, TypeValue, BUILTIN_COUNT};

verus! {

/// The well-formedness of an interned type table: the builtin types come
/// first, every type only refers to types interned before it, type
/// variables are numbered by their position, and no shape occurs twice.
pub open spec fn types_wf(types: Seq<TypeSignatureValue>) -> bool {
    &&& types.len() >= BUILTIN_COUNT
    &&& forall|i: int| 0 <= i < 5 ==> #[trigger] types[i]@ == TypeValue::Builtin(builtin_at(i))
    &&& forall|i: int, k: int|
        0 <= i < types.len() && 0 <= k < type_children(types[i]@).len() ==> (#[trigger] type_children(
            types[i]@,
        )[k]).id < i
    &&& forall|i: int|
        0 <= i < types.len() && (#[trigger] types[i]@) is TypeVariable ==> types[i]@->TypeVariable_0
            == i
    &&& forall|i: int, j: int|
        0 <= i < types.len() && 0 <= j < types.len() && i != j ==> #[trigger] types[i]@
            != #[trigger] types[j]@
}

/// Every type reference in `sigs` points into a table of length `len`.
pub open spec fn sigs_in(sigs: Seq<TypeSignature>, len: int) -> bool {
    forall|k: int| 0 <= k < sigs.len() ==> (#[trigger] sigs[k]).id < len
}

/// The types of a program, interned so that equal shapes share one reference.
#[derive(Debug)]
pub struct TypeTable {
    pub types: Vec<TypeSignatureValue>,
}

impl TypeTable {
    pub open spec fn wf(&self) -> bool {
        types_wf(self.types@)
    }

    pub open spec fn len(&self) -> nat {
        self.types@.len()
    }

    pub open spec fn value(&self, t: TypeSignature) -> TypeValue {
        self.types@[t.id as int]@
    }

    pub open spec fn contains(&self, t: TypeSignature) -> bool {
        t.id < self.types@.len()
    }

    /// `new` extends `old`: the types of `old` keep their references.
    pub open spec fn extends(new: TypeTable, old: TypeTable) -> bool {
        &&& old.types@.len() <= new.types@.len()
        &&& forall|i: int| 0 <= i < old.types@.len() ==> #[trigger] new.types@[i]@ == old.types@[i]@
    }

    /// A table that holds the builtin types only.
    pub fn new() -> (r: TypeTable)
        ensures
            r.wf(),
            r.types@.len() == BUILTIN_COUNT,
    {
        let mut types: Vec<TypeSignatureValue> = Vec::new();
        types.push(TypeSignatureValue::Builtin(BuiltinType::String));
        types.push(TypeSignatureValue::Builtin(BuiltinType::Number));
        types.push(TypeSignatureValue::Builtin(BuiltinType::Boolean));
        types.push(TypeSignatureValue::Builtin(BuiltinType::Void));
        types.push(TypeSignatureValue::Builtin(BuiltinType::Untyped));
        let r = TypeTable { types };
        assert forall|i: int, j: int|
            0 <= i < r.types@.len() && 0 <= j < r.types@.len() && i != j implies #[trigger] r.types@[i]@
            != #[trigger] r.types@[j]@ by {
            assert(r.types@[i]@ == TypeValue::Builtin(builtin_at(i)));
            assert(r.types@[j]@ == TypeValue::Builtin(builtin_at(j)));
        }
        r
    }

    /// The reference of the builtin type `b`.
    pub fn builtin(&self, b: BuiltinType) -> (r: TypeSignature)
        requires
            self.wf(),
        ensures
            r.id == builtin_index(b),
            self.value(r) == TypeValue::Builtin(b),
    {
        let id: usize = match b {
            BuiltinType::String => 0,
            BuiltinType::Number => 1,
            BuiltinType::Boolean => 2,
            BuiltinType::Void => 3,
            BuiltinType::Untyped => 4,
        };
        assert(self.types@[id as int]@ == TypeValue::Builtin(builtin_at(id as int)));
        TypeSignature { id }
    }

    /// The shape of the type `t`.
    pub fn get(&self, t: TypeSignature) -> (r: &TypeSignatureValue)
        requires
            self.contains(t),
        ensures
            r@ == self.value(t),
    {
        &self.types[t.id]
    }

    /// The reference of the type with shape `v`, added to the table if it is new.
    pub fn intern(&mut self, v: TypeSignatureValue) -> (r: TypeSignature)
        requires
            old(self).wf(),
            sigs_in(type_children(v@), old(self).types@.len() as int),
            v@ is TypeVariable ==> v@->TypeVariable_0 == old(self).types@.len(),
        ensures
            final(self).wf(),
            TypeTable::extends(*final(self), *old(self)),
            final(self).contains(r),
            final(self).value(r) == v@,
            final(self).types@.len() <= old(self).types@.len() + 1,
            (exists|i: int| 0 <= i < old(self).types@.len() && old(self).types@[i]@ == v@)
                ==> final(self).types@.len() == old(self).types@.len(),
    {
        let n = self.types.len();
        let mut i: usize = 0;
        while i < n
            invariant
                n == self.types@.len(),
                i <= n,
                self.wf(),
                forall|k: int| 0 <= k < i ==> self.types@[k]@ != v@,
            decreases n - i,
        {
            if self.types[i].same_as(&v) {
                return TypeSignature { id: i };
            }
            i = i + 1;
        }
        let ghost old_types = self.types@;
        self.types.push(v);
        proof {
            vstd::std_specs::vec::axiom_spec_len(&self.types);
            assert(self.types@[n as int]@ == v@);
            assert forall|a: int, k: int|
                0 <= a < self.types@.len() && 0 <= k < type_children(self.types@[a]@).len() implies (
            #[trigger] type_children(self.types@[a]@)[k]).id < a by {
                if a < n {
                    assert(self.types@[a] == old_types[a]);
                } else {
                    assert(type_children(v@)[k].id < n);
                }
            }
            assert forall|a: int, b: int|
                0 <= a < self.types@.len() && 0 <= b < self.types@.len() && a != b implies #[trigger] self.types@[a]@
                != #[trigger] self.types@[b]@ by {
                if a < n && b < n {
                    assert(self.types@[a] == old_types[a]);
                    assert(self.types@[b] == old_types[b]);
                }
            }
            assert forall|a: int|
                0 <= a < self.types@.len() && (#[trigger] self.types@[a]@) is TypeVariable implies self.types@[a]@->TypeVariable_0
                == a by {
                if a < n {
                    assert(self.types@[a] == old_types[a]);
                }
            }
            assert forall|a: int| 0 <= a < 5 implies #[trigger] self.types@[a]@ == TypeValue::Builtin(
                builtin_at(a),
            ) by {
                assert(self.types@[a] == old_types[a]);
            }
        }
        TypeSignature { id: n }
    }

    /// A fresh type variable, distinct from every type interned so far.
    pub fn new_type_var(&mut self) -> (r: TypeSignature)
        requires
            old(self).wf(),
        ensures
            final(self).wf(),
            TypeTable::extends(*final(self), *old(self)),
            r.id == old(self).types@.len(),
            final(self).types@.len() == old(self).types@.len() + 1,
            final(self).value(r) == TypeValue::TypeVariable(r.id),
    {
        let n = self.types.len();
        proof {
            assert forall|i: int| 0 <= i < n implies self.types@[i]@ != TypeValue::TypeVariable(n) by {
                if self.types@[i]@ is TypeVariable {
                    assert(self.types@[i]@->TypeVariable_0 == i);
                }
            }
        }
        self.intern(TypeSignatureValue::TypeVariable(n))
    }
}

/// A program: its nodes, its interned types, and its symbols.
#[derive(Debug)]
pub struct IrCtx {
    pub types: TypeTable,
    pub nodes: Vec<Node>,
    pub symbols: Arena<SymbolValueItem>,
}

impl IrCtx {
    /// The types are well formed and the nodes only refer to earlier nodes
    /// and to interned types.
    pub open spec fn wf(&self) -> bool {
        &&& self.types.wf()
        &&& nodes_wf(self.nodes@, self.types.types@.len() as int)
    }

    /// `new` extends `old`: nodes and types were only added, and the symbols
    /// were left alone.
    pub open spec fn extends(new: &IrCtx, old: &IrCtx) -> bool {
        &&& old.nodes@.len() <= new.nodes@.len()
        &&& forall|i: int| 0 <= i < old.nodes@.len() ==> #[trigger] new.nodes@[i] == old.nodes@[i]
        &&& TypeTable::extends(new.types, old.types)
        &&& new.types.wf() ==> old.types.wf()
        &&& arena_items(new.symbols) == arena_items(old.symbols)
        &&& arena_ident(new.symbols) == arena_ident(old.symbols)
    }

    /// An empty program.
    pub fn new() -> (r: IrCtx)
        ensures
            r.wf(),
            r.nodes@.len() == 0,
            r.types.types@.len() == BUILTIN_COUNT,
            arena_items(r.symbols).len() == 0,
    {
        IrCtx { types: TypeTable::new(), nodes: Vec::new(), symbols: new_symbol_arena() }
    }

    /// Appends a well formed node.
    pub fn add_node(&mut self, n: Node) -> (r: usize)
        requires
            old(self).wf(),
            node_value_ok(old(self).nodes@, old(self).nodes@.len() as int, n, old(self).types.types@.len() as int),
        ensures
            final(self).wf(),
            IrCtx::extends(final(self), old(self)),
            final(self).nodes@ == old(self).nodes@.push(n),
            final(self).types == old(self).types,
            r == old(self).nodes@.len(),
    {
        proof {
            lemma_nodes_push(self.nodes@, n, self.types.types@.len() as int);
        }
        let r = self.nodes.len();
        self.nodes.push(n);
        r
    }

    /// The reference of the type with shape `v`, interned if it is new.
    pub fn intern(&mut self, v: TypeSignatureValue) -> (r: TypeSignature)
        requires
            old(self).wf(),
            sigs_in(type_children(v@), old(self).types.types@.len() as int),
            !(v@ is TypeVariable),
        ensures
            final(self).wf(),
            IrCtx::extends(final(self), old(self)),
            final(self).nodes@ == old(self).nodes@,
            final(self).types.contains(r) && final(self).types.value(r) == v@,
    {
        let t = self.types.intern(v);
        proof {
            lemma_nodes_types_grow(self.nodes@, old(self).types.types@.len() as int, self.types.types@.len() as int);
        }
        t
    }

    /// A fresh type variable.
    pub fn new_type_var(&mut self) -> (r: TypeSignature)
        requires
            old(self).wf(),
        ensures
            final(self).wf(),
            IrCtx::extends(final(self), old(self)),
            final(self).nodes@ == old(self).nodes@,
            final(self).types.contains(r) && final(self).types.value(r) == TypeValue::TypeVariable(r.id),
            r.id == old(self).types.types@.len(),
    {
        let t = self.types.new_type_var();
        proof {
            lemma_nodes_types_grow(self.nodes@, old(self).types.types@.len() as int, self.types.types@.len() as int);
        }
        t
    }
}

} // verus!

verus! {

impl IrCtx {
    /// Sets the type of the variable declaration at node `v`.
    pub fn set_var_type(&mut self, v: usize, t: TypeSignature)
        requires
            old(self).wf(),
            crate::ir::node::is_var(old(self).nodes@, v as int),
            t.id < old(self).types.types@.len(),
        ensures
            final(self).wf(),
            final(self).types == old(self).types,
            final(self).symbols == old(self).symbols,
            final(self).nodes@ == old(self).nodes@.update(v as int, Node::VarDecl(crate::ir::node::VarDecl {
                type_sig: t,
                ..old(self).nodes@[v as int]->VarDecl_0
            })),
    {
        proof {
            assert(crate::ir::node::node_ok(self.nodes@, v as int, self.types.types@.len() as int));
        }
        let ghost n0 = self.nodes@;
        if let Node::VarDecl(d) = &mut self.nodes[v] {
            d.type_sig = t;
        }
        proof {
            let n = Node::VarDecl(crate::ir::node::VarDecl { type_sig: t, ..n0[v as int]->VarDecl_0 });
            assert(self.nodes@ == n0.update(v as int, n));
            assert(crate::ir::node::node_ok(n0.update(v as int, n), v as int, self.types.types@.len() as int));
            crate::ir::node::lemma_nodes_update(n0, v as int, n, self.types.types@.len() as int);
        }
    }

    /// Sets the type of argument `k` of the function at node `f`.
    pub fn set_arg_type(&mut self, f: usize, k: usize, t: TypeSignature)
        requires
            old(self).wf(),
            crate::ir::node::is_func(old(self).nodes@, f as int),
            k < old(self).nodes@[f as int]->Function_0.args@.len(),
            t.id < old(self).types.types@.len(),
        ensures
            final(self).wf(),
            final(self).types == old(self).types,
            final(self).symbols == old(self).symbols,
            final(self).nodes@.len() == old(self).nodes@.len(),
            forall|i: int| 0 <= i < old(self).nodes@.len() && i != f ==> final(self).nodes@[i] == old(self).nodes@[i],
            final(self).nodes@[f as int] is Function,
            final(self).nodes@[f as int]->Function_0.args@ == old(self).nodes@[f as int]->Function_0.args@.update(
                k as int,
                crate::ir::node::FunctionArg { type_sig: t, ..old(self).nodes@[f as int]->Function_0.args@[k as int] },
            ),
            final(self).nodes@[f as int]->Function_0.name == old(self).nodes@[f as int]->Function_0.name,
            final(self).nodes@[f as int]->Function_0.body == old(self).nodes@[f as int]->Function_0.body,
            final(self).nodes@[f as int]->Function_0.return_type == old(self).nodes@[f as int]->Function_0.return_type,
            final(self).nodes@[f as int]->Function_1 == old(self).nodes@[f as int]->Function_1,
    {
        proof {
            assert(crate::ir::node::node_ok(self.nodes@, f as int, self.types.types@.len() as int));
        }
        let ghost n0 = self.nodes@;
        if let Node::Function(fun, _) = &mut self.nodes[f] {
            fun.args[k].type_sig = t;
        }
        proof {
            let n = self.nodes@[f as int];
            assert(self.nodes@ == n0.update(f as int, n));
            assert(crate::ir::node::node_ok(n0.update(f as int, n), f as int, self.types.types@.len() as int)) by {
                let args = n->Function_0.args@;
                assert forall|j: int| 0 <= j < args.len() implies (#[trigger] args[j]).type_sig.id < self.types.types@.len() by {
                    if j != k {
                        assert(args[j] == n0[f as int]->Function_0.args@[j]);
                    }
                }
            }
            crate::ir::node::lemma_nodes_update(n0, f as int, n, self.types.types@.len() as int);
        }
    }

    /// Sets the return type of the function at node `f`.
    pub fn set_return_type(&mut self, f: usize, t: TypeSignature)
        requires
            old(self).wf(),
            crate::ir::node::is_func(old(self).nodes@, f as int),
            t.id < old(self).types.types@.len(),
        ensures
            final(self).wf(),
            final(self).types == old(self).types,
            final(self).symbols == old(self).symbols,
            final(self).nodes@ == old(self).nodes@.update(f as int, Node::Function(
                crate::ir::node::Function { return_type: t, ..old(self).nodes@[f as int]->Function_0 },
                old(self).nodes@[f as int]->Function_1,
            )),
    {
        proof {
            assert(crate::ir::node::node_ok(self.nodes@, f as int, self.types.types@.len() as int));
        }
        let ghost n0 = self.nodes@;
        if let Node::Function(fun, _) = &mut self.nodes[f] {
            fun.return_type = t;
        }
        proof {
            let n = self.nodes@[f as int];
            assert(self.nodes@ == n0.update(f as int, n));
            assert(crate::ir::node::node_ok(n0.update(f as int, n), f as int, self.types.types@.len() as int));
            crate::ir::node::lemma_nodes_update(n0, f as int, n, self.types.types@.len() as int);
        }
    }

    /// Sets the type of attribute `k` of the struct at node `d`.
    pub fn set_attr_type(&mut self, d: usize, k: usize, t: TypeSignature)
        requires
            old(self).wf(),
            crate::ir::node::is_struct(old(self).nodes@, d as int),
            k < old(self).nodes@[d as int]->Struct_0.attrs@.len(),
            t.id < old(self).types.types@.len(),
        ensures
            final(self).wf(),
            final(self).types == old(self).types,
            final(self).symbols == old(self).symbols,
            final(self).nodes@.len() == old(self).nodes@.len(),
            forall|i: int| 0 <= i < old(self).nodes@.len() && i != d ==> final(self).nodes@[i] == old(self).nodes@[i],
            final(self).nodes@[d as int] is Struct,
            final(self).nodes@[d as int]->Struct_0.attrs@ == old(self).nodes@[d as int]->Struct_0.attrs@.update(
                k as int,
                crate::ir::node::StructAttr { type_sig: t, ..old(self).nodes@[d as int]->Struct_0.attrs@[k as int] },
            ),
            final(self).nodes@[d as int]->Struct_0.name == old(self).nodes@[d as int]->Struct_0.name,
    {
        proof {
            assert(crate::ir::node::node_ok(self.nodes@, d as int, self.types.types@.len() as int));
        }
        let ghost n0 = self.nodes@;
        if let Node::Struct(st) = &mut self.nodes[d] {
            st.attrs[k].type_sig = t;
        }
        proof {
            let n = self.nodes@[d as int];
            assert(self.nodes@ == n0.update(d as int, n));
            assert(crate::ir::node::node_ok(n0.update(d as int, n), d as int, self.types.types@.len() as int)) by {
                let attrs = n->Struct_0.attrs@;
                assert forall|j: int| 0 <= j < attrs.len() implies (#[trigger] attrs[j]).type_sig.id < self.types.types@.len()
                    && (attrs[j].default_value matches Some(x) ==> crate::ir::node::expr_before(n0.update(d as int, n), x, d as int)) by {
                    assert(attrs[j].default_value == n0[d as int]->Struct_0.attrs@[j].default_value);
                    if j != k {
                        assert(attrs[j] == n0[d as int]->Struct_0.attrs@[j]);
                    }
                }
            }
            crate::ir::node::lemma_nodes_update(n0, d as int, n, self.types.types@.len() as int);
        }
    }

    /// Sets the type of item `j` of value `k` of the enum at node `d`.
    pub fn set_enum_item_type(&mut self, d: usize, k: usize, j: usize, t: TypeSignature)
        requires
            old(self).wf(),
            crate::ir::node::is_enum(old(self).nodes@, d as int),
            k < old(self).nodes@[d as int]->Enum_0.values@.len(),
            j < old(self).nodes@[d as int]->Enum_0.values@[k as int].items@.len(),
            t.id < old(self).types.types@.len(),
        ensures
            final(self).wf(),
            final(self).types == old(self).types,
            final(self).symbols == old(self).symbols,
            final(self).nodes@.len() == old(self).nodes@.len(),
            forall|i: int| 0 <= i < old(self).nodes@.len() && i != d ==> final(self).nodes@[i] == old(self).nodes@[i],
            final(self).nodes@[d as int] is Enum,
            final(self).nodes@[d as int]->Enum_0.values@.len() == old(self).nodes@[d as int]->Enum_0.values@.len(),
            forall|i: int| 0 <= i < old(self).nodes@[d as int]->Enum_0.values@.len() ==>
                (#[trigger] final(self).nodes@[d as int]->Enum_0.values@[i]).items@.len()
                    == old(self).nodes@[d as int]->Enum_0.values@[i].items@.len(),
            final(self).nodes@[d as int]->Enum_0.values@[k as int].items@[j as int] == t,
            final(self).nodes@[d as int]->Enum_0.name == old(self).nodes@[d as int]->Enum_0.name,
            forall|i: int| 0 <= i < old(self).nodes@[d as int]->Enum_0.values@.len() && i != k ==>
                #[trigger] final(self).nodes@[d as int]->Enum_0.values@[i] == old(self).nodes@[d as int]->Enum_0.values@[i],
            final(self).nodes@[d as int]->Enum_0.values@[k as int].name == old(self).nodes@[d as int]->Enum_0.values@[k as int].name,
            final(self).nodes@[d as int]->Enum_0.values@[k as int].items@
                == old(self).nodes@[d as int]->Enum_0.values@[k as int].items@.update(j as int, t),
    {
        proof {
            assert(crate::ir::node::node_ok(self.nodes@, d as int, self.types.types@.len() as int));
        }
        let ghost n0 = self.nodes@;
        if let Node::Enum(en) = &mut self.nodes[d] {
            en.values[k].items[j] = t;
        }
        proof {
            let n = self.nodes@[d as int];
            assert(self.nodes@ == n0.update(d as int, n));
            assert(crate::ir::node::node_ok(n0.update(d as int, n), d as int, self.types.types@.len() as int)) by {
                let vals = n->Enum_0.values@;
                assert forall|i: int| 0 <= i < vals.len() implies sigs_in((#[trigger] vals[i]).items@, self.types.types@.len() as int) by {
                    let old_items = n0[d as int]->Enum_0.values@[i].items@;
                    assert(sigs_in(old_items, self.types.types@.len() as int));
                    assert forall|m: int| 0 <= m < vals[i].items@.len() implies (#[trigger] vals[i].items@[m]).id < self.types.types@.len() by {
                        if !(i == k && m == j) {
                            assert(vals[i].items@[m] == old_items[m]);
                        }
                    }
                }
            }
            crate::ir::node::lemma_nodes_update(n0, d as int, n, self.types.types@.len() as int);
        }
    }

    /// Replaces the expression at node `e` by `x`, which refers to earlier
    /// nodes only and is a struct initialization exactly when the old one is.
    pub fn replace_expr(&mut self, e: usize, x: crate::ir::node::Expr)
        requires
            old(self).wf(),
            crate::ir::node::is_expr(old(self).nodes@, e as int),
            crate::ir::node::expr_ok(old(self).nodes@, e as int, x, old(self).types.types@.len() as int),
            (x is StructInit) == (old(self).nodes@[e as int]->Expr_0 is StructInit),
        ensures
            final(self).wf(),
            final(self).types == old(self).types,
            final(self).symbols == old(self).symbols,
            final(self).nodes@ == old(self).nodes@.update(e as int, Node::Expr(x, old(self).nodes@[e as int]->Expr_1)),
    {
        let ghost n0 = self.nodes@;
        let ghost n = Node::Expr(x, n0[e as int]->Expr_1);
        if let Node::Expr(old_x, _) = &mut self.nodes[e] {
            *old_x = x;
        }
        proof {
            assert(self.nodes@ == n0.update(e as int, n));
            crate::ir::node::lemma_node_value_transfer(n0, n0.update(e as int, n), e as int, n, self.types.types@.len() as int, self.types.types@.len() as int);
            crate::ir::node::lemma_nodes_update(n0, e as int, n, self.types.types@.len() as int);
        }
    }
}

} // verus!
