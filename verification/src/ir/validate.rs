//! What a target is entitled to assume.

use super::model::{Class, Exit, Op, Parts, RegionId, ValueId};
use super::Program;
use vstd::prelude::*;
use vstd::string::StringExecFns;

verus! {

/// A class, as it reads in a complaint.
pub open spec fn class_text(class: Class) -> Seq<char> {
    match class {
        Class::Word => "Word"@,
        Class::Fixed { bits } => "Fixed { bits: "@ + crate::text::decimal(bits as nat) + " }"@,
        Class::Address => "Address"@,
    }
}

/// Classes one after another, with a comma before each but the first.
pub open spec fn class_list(classes: Seq<Class>) -> Seq<char>
    decreases classes.len(),
{
    if classes.len() == 0 {
        seq![]
    } else if classes.len() == 1 {
        class_text(classes[0])
    } else {
        class_list(classes.drop_last()) + ", "@ + class_text(classes.last())
    }
}

/// What is said of two classes that meet in one operation.
pub open spec fn disagreement(name: Seq<char>, left: Class, right: Class) -> Seq<char> {
    name + ": "@ + class_text(left) + " and "@ + class_text(right) + " in one operation"@
}

/// What is said of a function that leaves with something other than it
/// promised.
pub open spec fn broken_promise(
    name: Seq<char>,
    promised: Seq<Class>,
    found: Seq<Class>,
) -> Seq<char> {
    name + " returns ["@ + class_list(promised) + "] but leaves with ["@ + class_list(found) + "]"@
}

impl Parts {
    /// Whether a region is true to what a function promises: the operands of
    /// each operation are of one class, wherever it leaves it leaves with
    /// `answers`, and so it is with the regions inside it.
    pub open spec fn region_agrees(self, region: RegionId, answers: Seq<Class>, from: int) -> bool
        decreases self.rank(region), self.region_ops(region).len() - from,
    {
        let ops = self.region_ops(region);
        let end = self.region(region).terminator;
        if from < 0 || from >= ops.len() {
            end.exit == Exit::Return ==> self.classes_of(self.values(end.values)) == answers
        } else {
            &&& match ops[from] {
                Op::Binary { left, right, .. } => self.class(left) == self.class(right),
                Op::Compare { left, right, .. } => self.class(left) == self.class(right),
                Op::If { then_region, else_region, .. } => {
                    &&& self.nests(region, then_region)
                    &&& self.nests(region, else_region)
                    &&& self.region_agrees(then_region, answers, 0)
                    &&& self.region_agrees(else_region, answers, 0)
                },
                Op::Loop { body, .. } => self.nests(region, body) && self.region_agrees(
                    body,
                    answers,
                    0,
                ),
                _ => true,
            }
            &&& self.region_agrees(region, answers, from + 1)
        }
    }

    /// Whether every function is true to what it promises.
    pub open spec fn agrees(self) -> bool {
        forall|f: int|
            0 <= f < self.functions.len() ==> self.region_agrees(
                (#[trigger] self.functions[f]).body,
                self.functions[f].answers.read(self.signature),
                0,
            )
    }

    /// The first thing wrong with a region from instruction `from` on.
    pub open spec fn region_complaint(
        self,
        name: Seq<char>,
        region: RegionId,
        answers: Seq<Class>,
        from: int,
    ) -> Option<Seq<char>>
        decreases self.rank(region), self.region_ops(region).len() - from,
    {
        let ops = self.region_ops(region);
        let end = self.region(region).terminator;
        if from < 0 || from >= ops.len() {
            let found = self.classes_of(self.values(end.values));
            if end.exit == Exit::Return && found != answers {
                Some(broken_promise(name, answers, found))
            } else {
                None
            }
        } else {
            let here = match ops[from] {
                Op::Binary { left, right, .. } => self.operands_complaint(name, left, right),
                Op::Compare { left, right, .. } => self.operands_complaint(name, left, right),
                Op::If { then_region, else_region, .. } => if self.nests(region, then_region)
                    && self.nests(region, else_region) {
                    match self.region_complaint(name, then_region, answers, 0) {
                        Some(complaint) => Some(complaint),
                        None => self.region_complaint(name, else_region, answers, 0),
                    }
                } else {
                    None
                },
                Op::Loop { body, .. } => if self.nests(region, body) {
                    self.region_complaint(name, body, answers, 0)
                } else {
                    None
                },
                _ => None,
            };
            match here {
                Some(complaint) => Some(complaint),
                None => self.region_complaint(name, region, answers, from + 1),
            }
        }
    }

    pub open spec fn operands_complaint(
        self,
        name: Seq<char>,
        left: ValueId,
        right: ValueId,
    ) -> Option<Seq<char>> {
        if self.class(left) == self.class(right) {
            None
        } else {
            Some(disagreement(name, self.class(left), self.class(right)))
        }
    }

    /// The first thing wrong with the functions from `from` on.
    pub open spec fn complaint(self, from: int) -> Option<Seq<char>>
        decreases self.functions.len() - from,
    {
        if from < 0 || from >= self.functions.len() {
            None
        } else {
            let function = self.functions[from];
            match self.region_complaint(
                self.name(function.name),
                function.body,
                function.answers.read(self.signature),
                0,
            ) {
                Some(complaint) => Some(complaint),
                None => self.complaint(from + 1),
            }
        }
    }
}

/// Nothing is wrong with a region exactly when it agrees.
proof fn a_region_agrees_when_nothing_is_wrong(
    parts: Parts,
    name: Seq<char>,
    region: RegionId,
    answers: Seq<Class>,
    from: int,
)
    requires
        parts.wf(),
        region.0 < parts.regions.len(),
        0 <= from <= parts.region_ops(region).len(),
    ensures
        parts.region_agrees(region, answers, from) <==> parts.region_complaint(
            name,
            region,
            answers,
            from,
        ) is None,
    decreases parts.rank(region), parts.region_ops(region).len() - from,
{
    let ops = parts.region_ops(region);
    if from < ops.len() {
        let at = parts.region(region).ops.start + from;
        assert(parts.region_fits(parts.regions[region.0 as int]));
        assert(ops[from] == parts.ops[at]);
        assert(parts.region_nests(region));
        match ops[from] {
            Op::If { then_region, else_region, .. } => {
                assert(super::model::children(parts.ops[at])[0] == then_region);
                assert(super::model::children(parts.ops[at])[1] == else_region);
                a_region_agrees_when_nothing_is_wrong(parts, name, then_region, answers, 0);
                a_region_agrees_when_nothing_is_wrong(parts, name, else_region, answers, 0);
            },
            Op::Loop { body, .. } => {
                assert(super::model::children(parts.ops[at])[0] == body);
                a_region_agrees_when_nothing_is_wrong(parts, name, body, answers, 0);
            },
            _ => {},
        }
        a_region_agrees_when_nothing_is_wrong(parts, name, region, answers, from + 1);
    }
}

/// In a region that agrees, whatever two values an operation takes are of one
/// class, where it leaves its function it leaves with what that answers, and
/// the regions inside it agree too.
pub proof fn a_region_agrees_throughout(
    parts: Parts,
    region: RegionId,
    answers: Seq<Class>,
    from: int,
)
    requires
        0 <= from <= parts.region_ops(region).len(),
        parts.region_agrees(region, answers, from),
    ensures
        forall|i: int|
            from <= i < parts.region_ops(region).len() ==> match #[trigger] parts.region_ops(
                region,
            )[i] {
                Op::Binary { left, right, .. } => parts.class(left) == parts.class(right),
                Op::Compare { left, right, .. } => parts.class(left) == parts.class(right),
                Op::If { then_region, else_region, .. } => parts.region_agrees(
                    then_region,
                    answers,
                    0,
                ) && parts.region_agrees(else_region, answers, 0),
                Op::Loop { body, .. } => parts.region_agrees(body, answers, 0),
                _ => true,
            },
        parts.region(region).terminator.exit == Exit::Return ==> parts.classes_of(
            parts.values(parts.region(region).terminator.values),
        ) == answers,
    decreases parts.region_ops(region).len() - from,
{
    if from < parts.region_ops(region).len() {
        a_region_agrees_throughout(parts, region, answers, from + 1);
    }
}

/// Nothing is wrong with a program exactly when every function is true to
/// what it promises.
pub proof fn a_program_agrees_when_nothing_is_wrong(parts: Parts)
    requires
        parts.wf(),
    ensures
        parts.agrees() <==> parts.complaint(0) is None,
{
    no_complaint_from(parts, 0);
}

proof fn no_complaint_from(parts: Parts, from: int)
    requires
        parts.wf(),
        0 <= from <= parts.functions.len(),
    ensures
        parts.complaint(from) is None <==> forall|f: int|
            from <= f < parts.functions.len() ==> parts.region_agrees(
                (#[trigger] parts.functions[f]).body,
                parts.functions[f].answers.read(parts.signature),
                0,
            ),
    decreases parts.functions.len() - from,
{
    if from < parts.functions.len() {
        let function = parts.functions[from];
        assert(parts.function_fits(function));
        a_region_agrees_when_nothing_is_wrong(
            parts,
            parts.name(function.name),
            function.body,
            function.answers.read(parts.signature),
            0,
        );
        no_complaint_from(parts, from + 1);
    }
}

fn push_class(out: &mut String, class: Class)
    ensures
        final(out)@ == old(out)@ + class_text(class),
{
    match class {
        Class::Word => out.append("Word"),
        Class::Fixed { bits } => {
            out.append("Fixed { bits: ");
            crate::text::push_decimal(out, bits as u64);
            out.append(" }");
        },
        Class::Address => out.append("Address"),
    }
    assert(out@ =~= old(out)@ + class_text(class));
}

fn push_classes(out: &mut String, classes: &[Class])
    ensures
        final(out)@ == old(out)@ + class_list(classes@),
{
    let mut at: usize = 0;
    while at < classes.len()
        invariant
            at <= classes.len(),
            out@ == old(out)@ + class_list(classes@.take(at as int)),
        decreases classes.len() - at,
    {
        if at > 0 {
            out.append(", ");
        }
        push_class(out, classes[at]);
        proof {
            let taken = classes@.take(at + 1);
            assert(taken.drop_last() =~= classes@.take(at as int));
            assert(out@ =~= old(out)@ + class_list(taken));
        }
        at = at + 1;
    }
    assert(out@ =~= old(out)@ + class_list(classes@.take(at as int)));
    assert(classes@.take(at as int) =~= classes@);
}

fn same_classes(left: &[Class], right: &[Class]) -> (same: bool)
    ensures
        same == (left@ == right@),
{
    if left.len() != right.len() {
        return false;
    }
    let mut at: usize = 0;
    while at < left.len()
        invariant
            at <= left.len(),
            left@.len() == right@.len(),
            forall|i: int| 0 <= i < at ==> left@[i] == right@[i],
        decreases left.len() - at,
    {
        if left[at] != right[at] {
            assert(left@[at as int] != right@[at as int]);
            return false;
        }
        at = at + 1;
    }
    assert(left@ =~= right@);
    true
}

/// Whether a reply is the first thing wrong, or that nothing is.
pub open spec fn replies(reply: Result<(), String>, complaint: Option<Seq<char>>) -> bool {
    match complaint {
        Some(text) => reply matches Err(said) && said@ == text,
        None => reply is Ok,
    }
}

/// What a program has to be true of before a target sees it. These are the
/// mistakes a builder can make that a target would otherwise miscompile in
/// silence rather than reject.
///
/// Names the first disagreement found.
pub fn validate(program: &Program) -> (reply: Result<(), String>)
    requires
        program@.wf(),
    ensures
        reply is Ok <==> program@.agrees(),
        replies(reply, program@.complaint(0)),
{
    proof {
        a_program_agrees_when_nothing_is_wrong(program@);
    }
    let functions = program.functions();
    let mut at: usize = 0;
    while at < functions.len()
        invariant
            program@.wf(),
            functions@ == program@.functions,
            at <= functions.len(),
            program@.complaint(at as int) == program@.complaint(0),
            program@.agrees() <==> program@.complaint(0) is None,
        decreases functions.len() - at,
    {
        let function = functions[at];
        assert(program@.function_fits(program@.functions[at as int]));
        check(
            program,
            program.name(function.name),
            function.body,
            program.signature(function.answers),
        )?;
        at = at + 1;
    }
    Ok(())
}

fn check(program: &Program, name: &str, region: RegionId, answers: &[Class]) -> (reply: Result<
    (),
    String,
>)
    requires
        program@.wf(),
        region.0 < program@.regions.len(),
    ensures
        replies(reply, program@.region_complaint(name@, region, answers@, 0)),
    decreases program@.rank(region),
{
    let ops = program.ops(region);
    let ghost start = program@.region(region).ops.start as int;
    let mut at: usize = 0;
    proof {
        assert(program@.region_fits(program@.regions[region.0 as int]));
        assert(program@.region_nests(region));
    }
    while at < ops.len()
        invariant
            program@.wf(),
            region.0 < program@.regions.len(),
            ops@ == program@.region_ops(region),
            program@.region_nests(region),
            start == program@.region(region).ops.start,
            program@.region(region).ops.within(program@.ops.len()),
            at <= ops.len(),
            program@.region_complaint(name@, region, answers@, at as int)
                == program@.region_complaint(name@, region, answers@, 0),
        decreases ops.len() - at,
    {
        proof {
            assert(ops@[at as int] == program@.ops[start + at]);
            assert(program@.op_fits(program@.ops[start + at], program@.results[start + at]));
        }
        match ops[at] {
            Op::Binary { left, right, .. } => check_operands(program, name, left, right)?,
            Op::Compare { left, right, .. } => check_operands(program, name, left, right)?,
            Op::If { then_region, else_region, .. } => {
                proof {
                    let inner = super::model::children(program@.ops[start + at]);
                    assert(inner[0] == then_region);
                    assert(inner[1] == else_region);
                }
                check(program, name, then_region, answers)?;
                check(program, name, else_region, answers)?;
            },
            Op::Loop { body, .. } => {
                proof {
                    let inner = super::model::children(program@.ops[start + at]);
                    assert(inner[0] == body);
                }
                check(program, name, body, answers)?;
            },
            _ => {},
        }
        at = at + 1;
    }
    let terminator = program.region(region).terminator;
    if terminator.exit == Exit::Return {
        let values = program.values(terminator.values);
        let mut found: Vec<Class> = Vec::new();
        let mut next: usize = 0;
        while next < values.len()
            invariant
                program@.wf(),
                terminator.values.within(program@.operands.len()),
                values@ == program@.values(terminator.values),
                next <= values.len(),
                found@ == program@.classes_of(values@.take(next as int)),
            decreases values.len() - next,
        {
            assert(program@.known(program@.operands[terminator.values.start + next]));
            found.push(program.class(values[next]));
            next = next + 1;
            assert(found@ =~= program@.classes_of(values@.take(next as int)));
        }
        assert(values@.take(next as int) =~= values@);
        if !same_classes(found.as_slice(), answers) {
            let mut said = String::new();
            said.append(name);
            said.append(" returns [");
            push_classes(&mut said, answers);
            said.append("] but leaves with [");
            push_classes(&mut said, found.as_slice());
            said.append("]");
            assert(said@ =~= broken_promise(name@, answers@, found@));
            return Err(said);
        }
    }
    Ok(())
}

fn check_operands(program: &Program, name: &str, left: ValueId, right: ValueId) -> (reply: Result<
    (),
    String,
>)
    requires
        program@.known(left),
        program@.known(right),
    ensures
        replies(reply, program@.operands_complaint(name@, left, right)),
{
    let (left, right) = (program.class(left), program.class(right));
    if left != right {
        let mut said = String::new();
        said.append(name);
        said.append(": ");
        push_class(&mut said, left);
        said.append(" and ");
        push_class(&mut said, right);
        said.append(" in one operation");
        assert(said@ =~= disagreement(name@, left, right));
        return Err(said);
    }
    Ok(())
}

} // verus!
