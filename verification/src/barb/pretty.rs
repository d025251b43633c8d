//! Rendering a program as text, so that one can be read.

use super::constant::{as_bytes, as_number, is_readable, shape, Shape};
use super::ir::{Atom, ConstId, Ctor, CtorId, Expr, ExprId, FnId, Range, Store, Symbol, TypeId};
use super::{constant, Program};
use crate::text;
use vstd::prelude::*;
use vstd::string::StringExecFns;

verus! {

/// A local.
pub open spec fn local_text(level: nat) -> Seq<char> {
    "v"@ + text::decimal(level)
}

/// Two spaces for each step inwards.
pub open spec fn indent(depth: nat) -> Seq<char>
    decreases depth,
{
    if depth == 0 {
        seq![]
    } else {
        indent((depth - 1) as nat) + "  "@
    }
}

/// A name applied to something, or by itself.
pub open spec fn applied(name: Seq<char>, args: Seq<Seq<char>>) -> Seq<char> {
    if args.len() == 0 {
        name
    } else {
        name + "("@ + text::joined(args, ", "@) + ")"@
    }
}

impl Store {
    pub open spec fn name_of_type(self, id: TypeId) -> Seq<char> {
        self.name(self.type_(id).name)
    }

    pub open spec fn names_of_types(self, types: Seq<TypeId>) -> Seq<Seq<char>> {
        Seq::new(types.len(), |i: int| self.name_of_type(types[i]))
    }

    pub open spec fn ctor_text(self, ctor: Ctor) -> Seq<char> {
        applied(self.name(ctor.name), self.names_of_types(ctor.fields.read(self.types_pool)))
    }

    pub open spec fn ctor_texts(self, ctors: Seq<Ctor>) -> Seq<Seq<char>> {
        Seq::new(ctors.len(), |i: int| self.ctor_text(ctors[i]))
    }

    /// A type, then each of its constructors.
    pub open spec fn type_text(self, id: TypeId) -> Seq<char> {
        self.name_of_type(id) + " = "@ + text::joined(self.ctor_texts(self.ctors_of(id)), " | "@)
            + "\n"@
    }

    pub open spec fn param_texts(self, params: Seq<TypeId>) -> Seq<Seq<char>> {
        Seq::new(params.len(), |i: int| local_text(i as nat) + ": "@ + self.name_of_type(params[i]))
    }

    /// What a function takes and answers, then what it runs.
    pub open spec fn function_text(self, id: FnId) -> Seq<char> {
        let function = self.function(id);
        let head = self.name(function.name) + "("@ + text::joined(
            self.param_texts(self.params(id)),
            ", "@,
        ) + ") -> "@ + self.name_of_type(function.result);
        if function.defined {
            head + " =\n"@ + self.expr_text(function.body, function.params.len as nat, 1)
        } else {
            head + "\n"@
        }
    }

    pub open spec fn atom_texts(self, atoms: Seq<Atom>) -> Seq<Seq<char>> {
        Seq::new(atoms.len(), |i: int| local_text(atoms[i].0.0 as nat))
    }

    /// A known value as what it stands for, not as its bytes.
    pub open spec fn known_text(self, id: TypeId, value: ConstId) -> Seq<char> {
        let bytes = self.known_bytes(value);
        let (count, took) = constant::front(bytes);
        let run = bytes.skip(took as int);
        if self.is_number(id) && constant::reads(bytes) {
            text::decimal(count)
        } else if self.shape(id) is Spine && constant::reads(bytes) && bytes.len() - took == count
            && vstd::utf8::valid_utf8(run) {
            text::quotation(vstd::utf8::decode_utf8(run))
        } else if self.shape(id) is Spine {
            "<"@ + text::decimal(bytes.len()) + " bytes>"@
        } else {
            "<"@ + self.name_of_type(id) + ">"@
        }
    }

    /// A term where there are `level` locals, `depth` steps in.
    pub open spec fn expr_text(self, expr: ExprId, level: nat, depth: nat) -> Seq<char>
        decreases expr.0, 1nat, 0nat,
    {
        let pad = indent(depth);
        match self.expr(expr) {
            Expr::Atom(atom) => pad + local_text(atom.0.0 as nat) + "\n"@,
            Expr::Con(ctor, args) => pad + applied(
                self.name(self.ctor(ctor).name),
                self.atom_texts(args.read(self.atoms)),
            ) + "\n"@,
            Expr::Call(function, args) => pad + applied(
                self.name(self.function(function).name),
                self.atom_texts(args.read(self.atoms)),
            ) + "\n"@,
            Expr::Static(id, value) => pad + self.known_text(id, value) + "\n"@,
            Expr::Let(value, body) => if value.0 < expr.0 && body.0 < expr.0 {
                pad + "let "@ + local_text(level) + " = "@ + text::trimmed(
                    self.expr_text(value, level, 0),
                ) + "\n"@ + self.expr_text(body, level + 1, depth)
            } else {
                seq![]
            },
            Expr::Match(scrutinee, arms) => pad + "match "@ + local_text(scrutinee.0.0 as nat)
                + " {\n"@ + self.arms_text(expr, arms, level, depth, arms.len as nat) + pad
                + "}\n"@,
        }
    }

    /// The first `count` arms of a match.
    pub open spec fn arms_text(
        self,
        expr: ExprId,
        arms: Range,
        level: nat,
        depth: nat,
        count: nat,
    ) -> Seq<char>
        decreases expr.0, 0nat, count,
    {
        if count == 0 {
            seq![]
        } else {
            let arm = self.arms[arms.start + count - 1];
            let fields = self.ctor(arm.ctor).fields.len as nat;
            self.arms_text(expr, arms, level, depth, (count - 1) as nat) + indent(depth) + "  "@
                + applied(
                self.name(self.ctor(arm.ctor).name),
                Seq::new(fields, |i: int| local_text((level + i) as nat)),
            ) + " =>\n"@ + if arm.body.0 < expr.0 {
                self.expr_text(arm.body, level + fields, depth + 2)
            } else {
                seq![]
            }
        }
    }

    /// Types up to `count`, one after the other.
    pub open spec fn types_text(self, count: nat) -> Seq<char>
        decreases count,
    {
        if count == 0 {
            seq![]
        } else {
            self.types_text((count - 1) as nat) + self.type_text(TypeId((count - 1) as u32))
        }
    }

    /// Functions up to `count`, with an empty line before each.
    pub open spec fn functions_text(self, count: nat) -> Seq<char>
        decreases count,
    {
        if count == 0 {
            seq![]
        } else {
            self.functions_text((count - 1) as nat) + "\n"@ + self.function_text(
                FnId((count - 1) as u32),
            )
        }
    }

    /// The whole program: its types, then its functions.
    pub open spec fn text(self) -> Seq<char> {
        self.types_text(self.types.len()) + self.functions_text(self.functions.len())
    }
}

fn push_local(out: &mut String, level: u64)
    ensures
        final(out)@ == old(out)@ + local_text(level as nat),
{
    out.append("v");
    text::push_decimal(out, level);
    assert(out@ =~= old(out)@ + local_text(level as nat));
}

fn push_indent(out: &mut String, depth: u64)
    ensures
        final(out)@ == old(out)@ + indent(depth as nat),
{
    let ghost before = out@;
    let mut at: u64 = 0;
    assert(out@ =~= before + indent(0));
    while at < depth
        invariant
            at <= depth,
            out@ == before + indent(at as nat),
        decreases depth - at,
    {
        out.append("  ");
        at = at + 1;
        assert(out@ =~= before + indent(at as nat));
    }
}

impl Program {
    /// The whole program: its types, then its functions.
    pub fn render(&self) -> (out: String)
        requires
            self@.wf(),
        ensures
            out@ == self@.text(),
    {
        let mut out = String::new();
        let mut at: usize = 0;
        assert(out@ =~= self@.types_text(0));
        while at < self.types().len()
            invariant
                self@.wf(),
                at <= self@.types.len(),
                out@ == self@.types_text(at as nat),
            decreases self@.types.len() - at,
        {
            self.render_type(TypeId(at as u32), &mut out);
            at = at + 1;
        }
        let ghost types = out@;
        let mut at: usize = 0;
        assert(out@ =~= types + self@.functions_text(0));
        while at < self.functions().len()
            invariant
                self@.wf(),
                at <= self@.functions.len(),
                out@ == types + self@.functions_text(at as nat),
            decreases self@.functions.len() - at,
        {
            out.append("\n");
            self.render_function(FnId(at as u32), &mut out);
            at = at + 1;
            assert(out@ =~= types + self@.functions_text(at as nat));
        }
        out
    }

    fn push_name_of_type(&self, id: TypeId, out: &mut String)
        requires
            self@.wf(),
            id.0 < self@.types.len(),
        ensures
            final(out)@ == old(out)@ + self@.name_of_type(id),
    {
        proof {
            assert(self@.type_fits(id.0 as int));
        }
        out.append(self.name(self.type_(id).name));
    }

    fn render_ctor(&self, ctor: CtorId, out: &mut String)
        requires
            self@.wf(),
            ctor.0 < self@.ctors.len(),
        ensures
            final(out)@ == old(out)@ + self@.ctor_text(self@.ctor(ctor)),
    {
        proof {
            assert(self@.ctor_fits(ctor.0 as int));
        }
        let held = *self.ctor(ctor);
        let fields = self.types_of(held.fields);
        let ghost names = self@.names_of_types(fields@);
        let ghost before = out@;
        out.append(self.name(held.name));
        if fields.len() > 0 {
            out.append("(");
            let ghost start = out@;
            let mut at: usize = 0;
            assert(names.take(0) =~= seq![]);
            assert(out@ =~= start + text::joined(names.take(0), ", "@));
            while at < fields.len()
                invariant
                    self@.wf(),
                    held.fields.within(self@.types_pool.len()),
                    fields@ == held.fields.read(self@.types_pool),
                    names == self@.names_of_types(fields@),
                    at <= fields@.len(),
                    out@ == start + text::joined(names.take(at as int), ", "@),
                decreases fields@.len() - at,
            {
                proof {
                    text::joining_one_more(names, ", "@, at as int);
                    assert(fields@[at as int] == self@.types_pool[held.fields.start + at]);
                }
                if at > 0 {
                    out.append(", ");
                }
                self.push_name_of_type(fields[at], out);
                at = at + 1;
                assert(out@ =~= start + text::joined(names.take(at as int), ", "@));
            }
            assert(names.take(at as int) =~= names);
            out.append(")");
        }
        assert(out@ =~= before + self@.ctor_text(self@.ctor(ctor)));
    }

    fn render_type(&self, id: TypeId, out: &mut String)
        requires
            self@.wf(),
            id.0 < self@.types.len(),
        ensures
            final(out)@ == old(out)@ + self@.type_text(id),
    {
        proof {
            assert(self@.type_fits(id.0 as int));
        }
        let ghost before = out@;
        let ctors = self.type_(id).ctors;
        let ghost texts = self@.ctor_texts(self@.ctors_of(id));
        self.push_name_of_type(id, out);
        out.append(" = ");
        let ghost start = out@;
        let mut tag: u32 = 0;
        assert(texts.take(0) =~= seq![]);
        assert(out@ =~= start + text::joined(texts.take(0), " | "@));
        while tag < ctors.len
            invariant
                self@.wf(),
                id.0 < self@.types.len(),
                ctors == self@.type_(id).ctors,
                ctors.within(self@.ctors.len()),
                texts == self@.ctor_texts(self@.ctors_of(id)),
                tag <= ctors.len,
                out@ == start + text::joined(texts.take(tag as int), " | "@),
            decreases ctors.len - tag,
        {
            proof {
                text::joining_one_more(texts, " | "@, tag as int);
                assert(self@.ctors_of(id)[tag as int] == self@.ctors[ctors.start + tag]);
            }
            if tag > 0 {
                out.append(" | ");
            }
            self.render_ctor(CtorId(ctors.start + tag), out);
            tag = tag + 1;
            assert(out@ =~= start + text::joined(texts.take(tag as int), " | "@));
        }
        assert(texts.take(tag as int) =~= texts);
        out.append("\n");
        assert(out@ =~= before + self@.type_text(id));
    }

    fn render_function(&self, id: FnId, out: &mut String)
        requires
            self@.wf(),
            id.0 < self@.functions.len(),
        ensures
            final(out)@ == old(out)@ + self@.function_text(id),
    {
        proof {
            assert(self@.function_fits(id.0 as int));
        }
        let ghost before = out@;
        let function = *self.function(id);
        let params = self.params(id);
        let ghost texts = self@.param_texts(params@);
        out.append(self.name(function.name));
        out.append("(");
        let ghost start = out@;
        let mut at: usize = 0;
        assert(texts.take(0) =~= seq![]);
        assert(out@ =~= start + text::joined(texts.take(0), ", "@));
        while at < params.len()
            invariant
                self@.wf(),
                id.0 < self@.functions.len(),
                params@ == self@.params(id),
                self@.function(id).params.within(self@.types_pool.len()),
                texts == self@.param_texts(params@),
                at <= params@.len(),
                out@ == start + text::joined(texts.take(at as int), ", "@),
            decreases params@.len() - at,
        {
            proof {
                text::joining_one_more(texts, ", "@, at as int);
                assert(params@[at as int] == self@.types_pool[self@.function(id).params.start
                    + at]);
            }
            if at > 0 {
                out.append(", ");
            }
            push_local(out, at as u64);
            out.append(": ");
            self.push_name_of_type(params[at], out);
            at = at + 1;
            assert(out@ =~= start + text::joined(texts.take(at as int), ", "@));
        }
        assert(texts.take(at as int) =~= texts);
        out.append(") -> ");
        self.push_name_of_type(function.result, out);
        if function.defined {
            out.append(" =\n");
            self.render_expr(function.body, function.params.len as u64, 1, out);
        } else {
            out.append("\n");
        }
        assert(out@ =~= before + self@.function_text(id));
    }

    /// A name, and what it is applied to.
    fn render_call(&self, name: Symbol, args: Range, out: &mut String)
        requires
            self@.wf(),
            name.0 < self@.names.len(),
            args.within(self@.atoms.len()),
        ensures
            final(out)@ == old(out)@ + applied(
                self@.name(name),
                self@.atom_texts(args.read(self@.atoms)),
            ),
    {
        let ghost before = out@;
        let atoms = self.atoms(args);
        let ghost texts = self@.atom_texts(atoms@);
        out.append(self.name(name));
        if atoms.len() > 0 {
            out.append("(");
            let ghost start = out@;
            let mut at: usize = 0;
            assert(texts.take(0) =~= seq![]);
            assert(out@ =~= start + text::joined(texts.take(0), ", "@));
            while at < atoms.len()
                invariant
                    texts == self@.atom_texts(atoms@),
                    at <= atoms@.len(),
                    out@ == start + text::joined(texts.take(at as int), ", "@),
                decreases atoms@.len() - at,
            {
                proof {
                    text::joining_one_more(texts, ", "@, at as int);
                }
                if at > 0 {
                    out.append(", ");
                }
                push_local(out, atoms[at].0.0 as u64);
                at = at + 1;
                assert(out@ =~= start + text::joined(texts.take(at as int), ", "@));
            }
            assert(texts.take(at as int) =~= texts);
            out.append(")");
        }
        assert(out@ =~= before + applied(
            self@.name(name),
            self@.atom_texts(args.read(self@.atoms)),
        ));
    }

    /// A constructor, and the locals its fields take.
    fn render_pattern(&self, ctor: CtorId, level: u64, out: &mut String)
        requires
            self@.wf(),
            ctor.0 < self@.ctors.len(),
            level + self@.ctor(ctor).fields.len <= u64::MAX,
        ensures
            final(out)@ == old(out)@ + applied(
                self@.name(self@.ctor(ctor).name),
                Seq::new(
                    self@.ctor(ctor).fields.len as nat,
                    |i: int| local_text((level + i) as nat),
                ),
            ),
    {
        proof {
            assert(self@.ctor_fits(ctor.0 as int));
        }
        let ghost before = out@;
        let held = *self.ctor(ctor);
        let ghost texts = Seq::new(
            held.fields.len as nat,
            |i: int| local_text((level + i) as nat),
        );
        out.append(self.name(held.name));
        if held.fields.len > 0 {
            out.append("(");
            let ghost start = out@;
            let mut at: u32 = 0;
            assert(texts.take(0) =~= seq![]);
            assert(out@ =~= start + text::joined(texts.take(0), ", "@));
            while at < held.fields.len
                invariant
                    texts == Seq::new(
                        held.fields.len as nat,
                        |i: int| local_text((level + i) as nat),
                    ),
                    level + held.fields.len <= u64::MAX,
                    at <= held.fields.len,
                    out@ == start + text::joined(texts.take(at as int), ", "@),
                decreases held.fields.len - at,
            {
                proof {
                    text::joining_one_more(texts, ", "@, at as int);
                }
                if at > 0 {
                    out.append(", ");
                }
                push_local(out, level + at as u64);
                at = at + 1;
                assert(out@ =~= start + text::joined(texts.take(at as int), ", "@));
            }
            assert(texts.take(at as int) =~= texts);
            out.append(")");
        }
        assert(out@ =~= before + applied(self@.name(held.name), texts));
    }

    fn render_known(&self, id: TypeId, value: ConstId, out: &mut String)
        requires
            self@.wf(),
            id.0 < self@.types.len(),
            value.0 < self@.consts.len(),
        ensures
            final(out)@ == old(out)@ + self@.known_text(id, value),
    {
        let ghost before = out@;
        let bytes = self.known_bytes(value);
        if is_readable(bytes) {
            if let Some(number) = as_number(self, id, bytes) {
                text::push_decimal(out, number);
                return ;
            }
            if let Some(run) = as_bytes(self, id, bytes) {
                if let Some(held) = text::from_utf8(run) {
                    proof {
                        vstd::utf8::encode_utf8_decode_utf8(held@);
                    }
                    let shown = text::quoted(held);
                    out.append(shown.as_str());
                    return ;
                }
            }
        }
        out.append("<");
        match shape(self, id) {
            Shape::Spine { .. } => {
                text::push_decimal(out, bytes.len() as u64);
                out.append(" bytes>");
                assert(out@ =~= before + self@.known_text(id, value));
            },
            Shape::Tagged => {
                self.push_name_of_type(id, out);
                out.append(">");
                assert(out@ =~= before + self@.known_text(id, value));
            },
        }
    }

    #[verifier::rlimit(40)]
    #[verifier::spinoff_prover]
    fn render_expr(&self, expr: ExprId, level: u64, depth: u64, out: &mut String)
        requires
            self@.wf(),
            expr.0 < self@.exprs.len(),
            level + 0xFFFF_FFFF * (expr.0 + 1) <= u64::MAX,
            depth + 2 * (expr.0 + 1) <= u64::MAX,
        ensures
            final(out)@ == old(out)@ + self@.expr_text(expr, level as nat, depth as nat),
        decreases expr.0,
    {
        proof {
            assert(self@.expr_fits(expr.0 as int, self@.exprs[expr.0 as int]));
        }
        let ghost before = out@;
        match self.expr(expr) {
            Expr::Atom(atom) => {
                push_indent(out, depth);
                push_local(out, atom.0.0 as u64);
                out.append("\n");
            },
            Expr::Con(ctor, args) => {
                proof {
                    assert(self@.ctor_fits(ctor.0 as int));
                }
                push_indent(out, depth);
                self.render_call(self.ctor(ctor).name, args, out);
                out.append("\n");
            },
            Expr::Call(function, args) => {
                proof {
                    assert(self@.function_fits(function.0 as int));
                }
                push_indent(out, depth);
                self.render_call(self.function(function).name, args, out);
                out.append("\n");
            },
            Expr::Static(id, value) => {
                push_indent(out, depth);
                self.render_known(id, value, out);
                out.append("\n");
            },
            Expr::Let(value, body) => {
                let mut bound = String::new();
                self.render_expr(value, level, 0, &mut bound);
                assert(bound@ =~= self@.expr_text(value, level as nat, 0));
                push_indent(out, depth);
                out.append("let ");
                push_local(out, level);
                out.append(" = ");
                text::push_trimmed(out, bound.as_str());
                out.append("\n");
                self.render_expr(body, level + 1, depth, out);
            },
            Expr::Match(scrutinee, arms) => {
                push_indent(out, depth);
                out.append("match ");
                push_local(out, scrutinee.0.0 as u64);
                out.append(" {\n");
                let ghost start = out@;
                let mut next: u32 = 0;
                assert(out@ =~= start + self@.arms_text(
                    expr,
                    arms,
                    level as nat,
                    depth as nat,
                    0,
                ));
                while next < arms.len
                    invariant
                        self@.wf(),
                        expr.0 < self@.exprs.len(),
                        self@.exprs[expr.0 as int] == Expr::Match(scrutinee, arms),
                        self@.expr_fits(expr.0 as int, self@.exprs[expr.0 as int]),
                        level + 0xFFFF_FFFF * (expr.0 + 1) <= u64::MAX,
                        depth + 2 * (expr.0 + 1) <= u64::MAX,
                        next <= arms.len,
                        out@ == start + self@.arms_text(
                            expr,
                            arms,
                            level as nat,
                            depth as nat,
                            next as nat,
                        ),
                    decreases arms.len - next,
                {
                    let ghost here = out@;
                    let arm = self.arms(arms)[next as usize];
                    proof {
                        assert(arm == self@.arms[arms.start + next]);
                        assert(self@.ctor_fits(arm.ctor.0 as int));
                    }
                    let fields: u64 = self.ctor(arm.ctor).fields.len as u64;
                    push_indent(out, depth);
                    out.append("  ");
                    self.render_pattern(arm.ctor, level, out);
                    out.append(" =>\n");
                    self.render_expr(arm.body, level + fields, depth + 2, out);
                    next = next + 1;
                    assert(out@ =~= start + self@.arms_text(
                        expr,
                        arms,
                        level as nat,
                        depth as nat,
                        next as nat,
                    ));
                }
                push_indent(out, depth);
                out.append("}\n");
            },
        }
        assert(out@ =~= before + self@.expr_text(expr, level as nat, depth as nat));
    }
}

} // verus!
