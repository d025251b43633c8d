//! Writing out what a program says, so that it is read back.

use super::syntax::{
    self, ClauseForm, CtorForm, PatternForm, SourceForm, StepForm, TermForm, TypeForm,
};
use crate::text;
use vstd::prelude::*;

verus! {

/// A word of words.
type Words = Seq<Seq<char>>;

/// Whether words stand at a place among others.
pub open spec fn stands(words: Words, at: int, part: Words) -> bool {
    &&& 0 <= at
    &&& at + part.len() <= words.len()
    &&& forall|i: int| 0 <= i < part.len() ==> words[at + i] == #[trigger] part[i]
}

proof fn parts_stand(words: Words, at: int, one: Words, other: Words)
    requires
        stands(words, at, one + other),
    ensures
        stands(words, at, one),
        stands(words, at + one.len(), other),
{
    let both = one + other;
    assert forall|i: int| 0 <= i < one.len() implies words[at + i] == #[trigger] one[i] by {
        assert(words[at + i] == both[i]);
    }
    assert forall|i: int| 0 <= i < other.len() implies words[at + one.len() + i]
        == #[trigger] other[i] by {
        assert(words[at + (one.len() + i)] == both[one.len() + i]);
    }
}

/// Whether a word may be a name.
pub open spec fn is_name(word: Seq<char>) -> bool {
    !syntax::is_punctuation(word)
}

pub open spec fn are_names(words: Words) -> bool {
    forall|i: int| 0 <= i < words.len() ==> is_name(#[trigger] words[i])
}

/// A term, written out.
pub open spec fn term_words(term: TermForm) -> Words
    decreases term, 0nat,
{
    match term {
        TermForm::Name(name) => seq![name],
        TermForm::Apply(name, args) => seq![name, "("@] + terms_words(args) + seq![")"@],
    }
}

/// Terms, one after the other.
pub open spec fn terms_words(terms: Seq<TermForm>) -> Words
    decreases terms, terms.len(),
{
    if terms.len() == 0 {
        seq![]
    } else {
        term_words(terms[0]) + terms_words(terms.drop_first())
    }
}

/// Whether a term is made of names.
pub open spec fn term_is_named(term: TermForm) -> bool
    decreases term, 0nat,
{
    match term {
        TermForm::Name(name) => is_name(name),
        TermForm::Apply(name, args) => is_name(name) && terms_are_named(args),
    }
}

pub open spec fn terms_are_named(terms: Seq<TermForm>) -> bool
    decreases terms, terms.len(),
{
    terms.len() == 0 || (term_is_named(terms[0]) && terms_are_named(terms.drop_first()))
}

/// The words that are not names differ from one another.
proof fn marks_differ()
    ensures
        "("@ != ")"@,
        "("@ != "="@,
        "("@ != "|"@,
        "("@ != "->"@,
        ")"@ != "="@,
        ")"@ != "|"@,
        ")"@ != "->"@,
        "="@ != "|"@,
        "="@ != "->"@,
        "|"@ != "->"@,
        is_name("type"@),
{
    reveal_strlit("(");
    reveal_strlit(")");
    reveal_strlit("=");
    reveal_strlit("|");
    reveal_strlit(",");
    reveal_strlit(":");
    reveal_strlit("->");
    reveal_strlit("type");
    assert("("@[0] == '(' && ")"@[0] == ')' && "="@[0] == '=' && "|"@[0] == '|');
    assert("->"@.len() == 2 && "("@.len() == 1 && ")"@.len() == 1 && "="@.len() == 1);
    assert("|"@.len() == 1 && "type"@.len() == 4 && ","@.len() == 1 && ":"@.len() == 1);
}

/// A term is words, the first of which is a name.
proof fn a_term_begins_with_a_name(term: TermForm)
    requires
        term_is_named(term),
    ensures
        term_words(term).len() > 0,
        is_name(term_words(term)[0]),
        term is Apply ==> term_words(term).len() > 1 && term_words(term)[1] == "("@,
        term is Name ==> term_words(term).len() == 1,
{
}

/// A term that is written out is read back, whatever follows that could not be
/// more of it.
pub proof fn a_term_reads_back(words: Words, at: int, term: TermForm)
    requires
        term_is_named(term),
        stands(words, at, term_words(term)),
        !syntax::is_at(words, at + term_words(term).len(), "("@),
    ensures
        syntax::term_at(words, at) == Ok::<_, Seq<char>>((term, at + term_words(term).len())),
    decreases term, 0nat,
{
    marks_differ();
    let own = term_words(term);
    assert(words[at + 0] == own[0]);
    if let TermForm::Apply(name, args) = term {
        let head = seq![name, "("@];
        assert(own =~= head + (terms_words(args) + seq![")"@]));
        parts_stand(words, at, head, terms_words(args) + seq![")"@]);
        assert(words[at + 1] == head[1]);
        terms_read_back(words, at + 2, seq![], args);
        assert(Seq::<TermForm>::empty() + args =~= args);
    }
}

/// Terms that are written out, up to the parenthesis that closes them.
pub proof fn terms_read_back(words: Words, at: int, done: Seq<TermForm>, terms: Seq<TermForm>)
    requires
        terms_are_named(terms),
        stands(words, at, terms_words(terms) + seq![")"@]),
    ensures
        syntax::terms_from(words, at, done) == Ok::<_, Seq<char>>(
            (done + terms, at + terms_words(terms).len() + 1),
        ),
    decreases terms, terms.len(),
{
    marks_differ();
    let close = seq![")"@];
    if terms.len() == 0 {
        assert(terms_words(terms) + close =~= close);
        assert(words[at + 0] == close[0]);
        assert(done + terms =~= done);
    } else {
        let first = terms[0];
        let rest = terms.drop_first();
        let own = term_words(first);
        let after = terms_words(rest) + close;
        assert(terms_words(terms) + close =~= own + after);
        parts_stand(words, at, own, after);
        a_term_begins_with_a_name(first);
        assert(words[at + 0] == own[0]);
        let end = at + own.len();
        assert(!syntax::is_at(words, end, "("@)) by {
            assert(words[end + 0] == after[0]);
            assert(terms_are_named(rest));
            if rest.len() > 0 {
                assert(term_is_named(rest[0]));
                a_term_begins_with_a_name(rest[0]);
                assert(after[0] == term_words(rest[0])[0]);
            }
        }
        a_term_reads_back(words, at, first);
        terms_read_back(words, end, done.push(first), rest);
        assert(done.push(first) + rest =~= done + terms);
    }
}

/// Names that are written out, up to the parenthesis that closes them.
proof fn names_read_back(words: Words, at: int, done: Words, names: Words)
    requires
        are_names(names),
        stands(words, at, names + seq![")"@]),
    ensures
        syntax::names_from(words, at, done) == Ok::<_, Seq<char>>(
            (done + names, at + names.len() + 1),
        ),
    decreases names.len(),
{
    marks_differ();
    let close = seq![")"@];
    let all = names + close;
    assert(words[at + 0] == all[0]);
    if names.len() == 0 {
        assert(done + names =~= done);
    } else {
        let rest = names.drop_first();
        assert(is_name(names[0]));
        assert(all =~= seq![names[0]] + (rest + close));
        parts_stand(words, at, seq![names[0]], rest + close);
        assert forall|i: int| 0 <= i < rest.len() implies is_name(#[trigger] rest[i]) by {
            assert(rest[i] == names[i + 1]);
        }
        names_read_back(words, at + 1, done.push(names[0]), rest);
        assert(done.push(names[0]) + rest =~= done + names);
    }
}

/// A pattern, written out.
pub open spec fn pattern_words(pattern: PatternForm) -> Words {
    match pattern {
        PatternForm::Bind(name) => seq![name],
        PatternForm::Ctor(name, fields) => seq![name, "("@] + fields + seq![")"@],
    }
}

pub open spec fn patterns_words(patterns: Seq<PatternForm>) -> Words
    decreases patterns.len(),
{
    if patterns.len() == 0 {
        seq![]
    } else {
        pattern_words(patterns[0]) + patterns_words(patterns.drop_first())
    }
}

pub open spec fn pattern_is_named(pattern: PatternForm) -> bool {
    match pattern {
        PatternForm::Bind(name) => is_name(name),
        PatternForm::Ctor(name, fields) => is_name(name) && are_names(fields),
    }
}

pub open spec fn patterns_are_named(patterns: Seq<PatternForm>) -> bool {
    forall|i: int| 0 <= i < patterns.len() ==> pattern_is_named(#[trigger] patterns[i])
}

/// Patterns that are written out, up to the parenthesis that closes them.
proof fn patterns_read_back(
    words: Words,
    at: int,
    done: Seq<PatternForm>,
    patterns: Seq<PatternForm>,
)
    requires
        patterns_are_named(patterns),
        stands(words, at, patterns_words(patterns) + seq![")"@]),
    ensures
        syntax::patterns_from(words, at, done) == Ok::<_, Seq<char>>(
            (done + patterns, at + patterns_words(patterns).len() + 1),
        ),
        syntax::group_end(words, at, 1) == at + patterns_words(patterns).len() + 1,
    decreases patterns.len(),
{
    marks_differ();
    let close = seq![")"@];
    if patterns.len() == 0 {
        assert(patterns_words(patterns) + close =~= close);
        assert(words[at + 0] == close[0]);
        assert(done + patterns =~= done);
        reveal_with_fuel(syntax::group_end, 2);
    } else {
        let first = patterns[0];
        let rest = patterns.drop_first();
        let own = pattern_words(first);
        let after = patterns_words(rest) + close;
        assert(patterns_words(patterns) + close =~= own + after);
        parts_stand(words, at, own, after);
        assert(pattern_is_named(first));
        assert(words[at + 0] == own[0]);
        let end = at + own.len();
        assert forall|i: int| 0 <= i < rest.len() implies pattern_is_named(#[trigger] rest[i]) by {
            assert(rest[i] == patterns[i + 1]);
        }
        patterns_read_back(words, end, done.push(first), rest);
        assert(done.push(first) + rest =~= done + patterns);
        match first {
            PatternForm::Bind(_) => {
                assert(!syntax::is_at(words, at + 1, "("@)) by {
                    assert(words[end + 0] == after[0]);
                    if rest.len() > 0 {
                        assert(pattern_is_named(rest[0]));
                        assert(after[0] == pattern_words(rest[0])[0]);
                    }
                }
            },
            PatternForm::Ctor(name, fields) => {
                let head = seq![name, "("@];
                assert(own =~= head + (fields + close));
                parts_stand(words, at, head, fields + close);
                assert(words[at + 1] == head[1]);
                names_read_back(words, at + 2, seq![], fields);
                assert(Words::empty() + fields =~= fields);
                names_are_passed(words, at + 2, fields, 1);
                reveal_with_fuel(syntax::group_end, 3);
            },
        }
    }
}

/// Names in parentheses are passed over together.
proof fn names_are_passed(words: Words, at: int, names: Words, depth: nat)
    requires
        are_names(names),
        stands(words, at, names + seq![")"@]),
    ensures
        syntax::group_end(words, at, depth + 1) == syntax::group_end(
            words,
            at + names.len() + 1,
            depth,
        ),
    decreases names.len(),
{
    marks_differ();
    let close = seq![")"@];
    let all = names + close;
    assert(words[at + 0] == all[0]);
    if names.len() > 0 {
        let rest = names.drop_first();
        assert(is_name(names[0]));
        assert(all =~= seq![names[0]] + (rest + close));
        parts_stand(words, at, seq![names[0]], rest + close);
        assert forall|i: int| 0 <= i < rest.len() implies is_name(#[trigger] rest[i]) by {
            assert(rest[i] == names[i + 1]);
        }
        names_are_passed(words, at + 1, rest, depth);
    }
}

/// A constructor and the types of its fields, written out.
pub open spec fn ctor_words(ctor: CtorForm) -> Words {
    if ctor.fields.len() == 0 {
        seq![ctor.name]
    } else {
        seq![ctor.name, "("@] + ctor.fields + seq![")"@]
    }
}

pub open spec fn ctor_is_named(ctor: CtorForm) -> bool {
    &&& is_name(ctor.name)
    &&& ctor.name != "type"@
    &&& are_names(ctor.fields)
}

/// A constructor that is written out is read back, with the types of its
/// fields in the order they were written in.
pub proof fn a_constructor_reads_back(words: Words, at: int, ctor: CtorForm)
    requires
        ctor_is_named(ctor),
        stands(words, at, ctor_words(ctor)),
        !syntax::is_at(words, at + ctor_words(ctor).len(), "("@),
    ensures
        syntax::ctor_at(words, at) == Ok::<_, Seq<char>>((ctor, at + ctor_words(ctor).len())),
{
    marks_differ();
    let own = ctor_words(ctor);
    assert(words[at + 0] == own[0]);
    if ctor.fields.len() > 0 {
        let head = seq![ctor.name, "("@];
        assert(own =~= head + (ctor.fields + seq![")"@]));
        parts_stand(words, at, head, ctor.fields + seq![")"@]);
        assert(words[at + 1] == head[1]);
        names_read_back(words, at + 2, seq![], ctor.fields);
        assert(Words::empty() + ctor.fields =~= ctor.fields);
    } else {
        assert(ctor.fields =~= seq![]);
    }
}

/// Constructors with a bar before each but the first.
pub open spec fn barred(ctors: Seq<CtorForm>) -> Words
    decreases ctors.len(),
{
    if ctors.len() == 0 {
        seq![]
    } else if ctors.len() == 1 {
        ctor_words(ctors[0])
    } else {
        ctor_words(ctors[0]) + (seq!["|"@] + barred(ctors.drop_first()))
    }
}

/// Constructors, one right after the other.
pub open spec fn loose(ctors: Seq<CtorForm>) -> Words
    decreases ctors.len(),
{
    if ctors.len() == 0 {
        seq![]
    } else {
        ctor_words(ctors[0]) + loose(ctors.drop_first())
    }
}

pub open spec fn ctors_are_named(ctors: Seq<CtorForm>) -> bool {
    forall|i: int| 0 <= i < ctors.len() ==> ctor_is_named(#[trigger] ctors[i])
}

/// Whether a word may come after something that is done.
pub open spec fn may_follow(words: Words, at: int) -> bool {
    at >= words.len() || is_name(words[at])
}

/// Constructors set apart are read back.
proof fn barred_ctors_read_back(
    words: Words,
    at: int,
    done: Seq<CtorForm>,
    ctors: Seq<CtorForm>,
)
    requires
        ctors.len() > 0,
        ctors_are_named(ctors),
        stands(words, at, barred(ctors)),
        may_follow(words, at + barred(ctors).len()),
    ensures
        syntax::ctors_apart(words, at, done) == Ok::<_, Seq<char>>(
            (done + ctors, at + barred(ctors).len()),
        ),
    decreases ctors.len(),
{
    marks_differ();
    let first = ctors[0];
    let own = ctor_words(first);
    assert(ctor_is_named(first));
    let end = at + own.len();
    if ctors.len() == 1 {
        a_constructor_reads_back(words, at, first);
        syntax::a_ctor_ends_further_on(words, at);
        assert(done.push(first) =~= done + ctors);
    } else {
        let rest = ctors.drop_first();
        let bar = seq!["|"@];
        parts_stand(words, at, own, bar + barred(rest));
        parts_stand(words, end, bar, barred(rest));
        assert(words[end + 0] == bar[0]);
        a_constructor_reads_back(words, at, first);
        syntax::a_ctor_ends_further_on(words, at);
        assert forall|i: int| 0 <= i < rest.len() implies ctor_is_named(#[trigger] rest[i]) by {
            assert(rest[i] == ctors[i + 1]);
        }
        barred_ctors_read_back(words, end + 1, done.push(first), rest);
        assert(done.push(first) + rest =~= done + ctors);
    }
}

/// Whether nothing that begins at a place could be a constructor.
pub open spec fn ends_a_type(words: Words, at: int) -> bool {
    at >= words.len() || words[at] == "type"@ || (is_name(words[at]) && syntax::is_clause_at(
        words,
        at,
    ))
}

/// Constructors that are not set apart are read back, up to where something
/// else begins.
proof fn loose_ctors_read_back(
    words: Words,
    at: int,
    done: Seq<CtorForm>,
    ctors: Seq<CtorForm>,
)
    requires
        ctors_are_named(ctors),
        stands(words, at, loose(ctors)),
        ends_a_type(words, at + loose(ctors).len()),
    ensures
        syntax::ctors_from(words, at, done) == Ok::<_, Seq<char>>(
            (done + ctors, at + loose(ctors).len()),
        ),
    decreases ctors.len(),
{
    marks_differ();
    if ctors.len() == 0 {
        assert(done + ctors =~= done);
    } else {
        let first = ctors[0];
        let rest = ctors.drop_first();
        let own = ctor_words(first);
        assert(ctor_is_named(first));
        parts_stand(words, at, own, loose(rest));
        let end = at + own.len();
        assert(may_follow(words, end)) by {
            if rest.len() > 0 {
                assert(ctor_is_named(rest[0])) by {
                    assert(rest[0] == ctors[1]);
                }
                assert(words[end + 0] == loose(rest)[0]);
                assert(loose(rest)[0] == ctor_words(rest[0])[0]);
            }
        }
        assert(words[at + 0] == own[0]);
        a_constructor_reads_back(words, at, first);
        syntax::a_ctor_ends_further_on(words, at);
        assert(!syntax::is_clause_at(words, at)) by {
            if first.fields.len() > 0 {
                let close = seq![")"@];
                let head = seq![first.name, "("@];
                assert(own =~= head + (first.fields + close));
                parts_stand(words, at, head, first.fields + close);
                names_are_passed(words, at + 2, first.fields, 0);
                reveal_with_fuel(syntax::group_end, 2);
            } else {
                assert(at + 1 == end);
            }
        }
        assert forall|i: int| 0 <= i < rest.len() implies ctor_is_named(#[trigger] rest[i]) by {
            assert(rest[i] == ctors[i + 1]);
        }
        loose_ctors_read_back(words, end, done.push(first), rest);
        assert(done.push(first) + rest =~= done + ctors);
    }
}

/// What a clause works out on the way, written out.
pub open spec fn steps_words(steps: Seq<StepForm>) -> Words
    decreases steps.len(),
{
    if steps.len() == 0 {
        seq![]
    } else {
        seq![steps[0].name, "="@] + (term_words(steps[0].term) + steps_words(steps.drop_first()))
    }
}

pub open spec fn steps_are_named(steps: Seq<StepForm>) -> bool {
    forall|i: int|
        0 <= i < steps.len() ==> is_name((#[trigger] steps[i]).name) && term_is_named(
            steps[i].term,
        )
}

/// Steps that are written out are read back, up to what the clause answers.
proof fn steps_read_back(
    words: Words,
    at: int,
    done: Seq<StepForm>,
    steps: Seq<StepForm>,
    body: TermForm,
)
    requires
        steps_are_named(steps),
        term_is_named(body),
        stands(words, at, steps_words(steps) + term_words(body)),
        may_follow(words, at + steps_words(steps).len() + term_words(body).len()),
    ensures
        syntax::steps_from(words, at, done) == Ok::<_, Seq<char>>(
            (done + steps, at + steps_words(steps).len()),
        ),
    decreases steps.len(),
{
    marks_differ();
    a_term_begins_with_a_name(body);
    if steps.len() == 0 {
        assert(steps_words(steps) + term_words(body) =~= term_words(body));
        assert(!syntax::is_at(words, at + 1, "="@)) by {
            if body is Apply {
                assert(words[at + 1] == term_words(body)[1]);
            }
        }
        assert(done + steps =~= done);
    } else {
        let first = steps[0];
        let rest = steps.drop_first();
        let head = seq![first.name, "="@];
        let own = term_words(first.term);
        let after = steps_words(rest) + term_words(body);
        assert(is_name(first.name) && term_is_named(first.term));
        assert(steps_words(steps) + term_words(body) =~= head + (own + after));
        parts_stand(words, at, head, own + after);
        parts_stand(words, at + 2, own, after);
        assert(words[at + 0] == head[0] && words[at + 1] == head[1]);
        let end = at + 2 + own.len();
        assert forall|i: int| 0 <= i < rest.len() implies is_name((#[trigger] rest[i]).name)
            && term_is_named(rest[i].term) by {
            assert(rest[i] == steps[i + 1]);
        }
        a_term_begins_with_a_name(first.term);
        assert(!syntax::is_at(words, end, "("@)) by {
            assert(words[end + 0] == after[0]);
            if rest.len() > 0 {
                assert(after[0] == rest[0].name);
                assert(is_name(rest[0].name));
            } else {
                assert(after[0] == term_words(body)[0]);
            }
        }
        a_term_reads_back(words, at + 2, first.term);
        steps_read_back(words, end, done.push(first), rest, body);
        assert(done.push(first) + rest =~= done + steps);
    }
}

/// A clause, from the arguments of its function on.
pub open spec fn clause_words(clause: ClauseForm) -> Words {
    seq!["("@] + ((patterns_words(clause.patterns) + seq![")"@]) + (seq!["->"@] + (steps_words(
        clause.steps,
    ) + term_words(clause.body))))
}

pub open spec fn clause_is_named(clause: ClauseForm) -> bool {
    &&& patterns_are_named(clause.patterns)
    &&& steps_are_named(clause.steps)
    &&& term_is_named(clause.body)
}

/// A clause that is written out is read back.
pub proof fn a_clause_reads_back(words: Words, at: int, clause: ClauseForm)
    requires
        clause_is_named(clause),
        stands(words, at, clause_words(clause)),
        may_follow(words, at + clause_words(clause).len()),
    ensures
        syntax::clause_at(words, at) == Ok::<_, Seq<char>>(
            (clause, at + clause_words(clause).len()),
        ),
        syntax::is_clause_at(words, at - 1),
{
    marks_differ();
    let open = seq!["("@];
    let patterns = patterns_words(clause.patterns) + seq![")"@];
    let arrow = seq!["->"@];
    let rest = steps_words(clause.steps) + term_words(clause.body);
    parts_stand(words, at, open, patterns + (arrow + rest));
    parts_stand(words, at + 1, patterns, arrow + rest);
    let after = at + 1 + patterns.len();
    parts_stand(words, after, arrow, rest);
    assert(words[at + 0] == open[0]);
    assert(words[after + 0] == arrow[0]);
    patterns_read_back(words, at + 1, seq![], clause.patterns);
    assert(Seq::<PatternForm>::empty() + clause.patterns =~= clause.patterns);
    steps_read_back(words, after + 1, seq![], clause.steps, clause.body);
    assert(Seq::<StepForm>::empty() + clause.steps =~= clause.steps);
    parts_stand(words, after + 1, steps_words(clause.steps), term_words(clause.body));
    a_term_reads_back(words, after + 1 + steps_words(clause.steps).len(), clause.body);
}

/// What a program says, one thing after the other.
pub enum Item {
    /// A type whose constructors are set apart.
    Apart(TypeForm),
    /// A type whose constructors are not.
    Loose(TypeForm),
    /// A clause of a function.
    Clause(Seq<char>, ClauseForm),
}

pub open spec fn item_words(item: Item) -> Words {
    match item {
        Item::Apart(held) => seq!["type"@, held.name, "="@] + barred(held.ctors),
        Item::Loose(held) => seq!["type"@, held.name] + loose(held.ctors),
        Item::Clause(name, clause) => seq![name] + clause_words(clause),
    }
}

pub open spec fn item_is_named(item: Item) -> bool {
    match item {
        Item::Apart(held) => is_name(held.name) && held.ctors.len() > 0 && ctors_are_named(
            held.ctors,
        ),
        Item::Loose(held) => is_name(held.name) && ctors_are_named(held.ctors),
        Item::Clause(name, clause) => is_name(name) && name != "type"@ && clause_is_named(clause),
    }
}

/// Things said, written out one after the other.
pub open spec fn items_words(items: Seq<Item>) -> Words
    decreases items.len(),
{
    if items.len() == 0 {
        seq![]
    } else {
        item_words(items[0]) + items_words(items.drop_first())
    }
}

pub open spec fn items_are_named(items: Seq<Item>) -> bool {
    forall|i: int| 0 <= i < items.len() ==> item_is_named(#[trigger] items[i])
}

/// The types among things said, in the order they were said in.
pub open spec fn types_in(items: Seq<Item>) -> Seq<TypeForm>
    decreases items.len(),
{
    if items.len() == 0 {
        seq![]
    } else {
        let before = types_in(items.drop_last());
        match items.last() {
            Item::Apart(held) => before.push(held),
            Item::Loose(held) => before.push(held),
            Item::Clause(_, _) => before,
        }
    }
}

/// The clauses of a function among things said, in the order they were said
/// in.
pub open spec fn clauses_in(items: Seq<Item>, name: Seq<char>) -> Seq<ClauseForm>
    decreases items.len(),
{
    if items.len() == 0 {
        seq![]
    } else {
        let before = clauses_in(items.drop_last(), name);
        match items.last() {
            Item::Clause(held, clause) => if held == name {
                before.push(clause)
            } else {
                before
            },
            _ => before,
        }
    }
}

/// The functions among things said, in the order they were first written in.
pub open spec fn names_in(items: Seq<Item>) -> Words
    decreases items.len(),
{
    if items.len() == 0 {
        seq![]
    } else {
        let before = names_in(items.drop_last());
        match items.last() {
            Item::Clause(name, _) => if before.contains(name) {
                before
            } else {
                before.push(name)
            },
            _ => before,
        }
    }
}

/// Whether a source is what things said come to: their types, and for each
/// function once its clauses.
pub open spec fn is_said(items: Seq<Item>, source: SourceForm) -> bool {
    &&& source.types == types_in(items)
    &&& source.functions.len() == names_in(items).len()
    &&& forall|f: int|
        0 <= f < source.functions.len() ==> (#[trigger] source.functions[f]).name == names_in(
            items,
        )[f] && source.functions[f].clauses == clauses_in(items, source.functions[f].name)
}

/// No function is listed twice, and one that is not has no clauses.
proof fn names_are_listed_once(items: Seq<Item>)
    ensures
        names_in(items).no_duplicates(),
        forall|name: Seq<char>| !(#[trigger] names_in(items).contains(name)) ==> clauses_in(
            items,
            name,
        ).len() == 0,
    decreases items.len(),
{
    if items.len() > 0 {
        names_are_listed_once(items.drop_last());
        let before = names_in(items.drop_last());
        let now = names_in(items);
        assert forall|name: Seq<char>| !(#[trigger] now.contains(name)) implies clauses_in(
            items,
            name,
        ).len() == 0 by {
            if before.contains(name) {
                let i = before.index_of(name);
                assert(now[i] == name);
            }
            if let Item::Clause(held, _) = items.last() {
                if held == name && !before.contains(held) {
                    assert(now.last() == name);
                }
            }
        }
    }
}

proof fn where_a_function_is(source: SourceForm, name: Seq<char>, from: int)
    requires
        0 <= from <= source.functions.len(),
    ensures
        from <= source.function_from(name, from) <= source.functions.len(),
        source.function_from(name, from) < source.functions.len()
            ==> source.functions[source.function_from(name, from)].name == name,
        forall|i: int|
            from <= i < source.function_from(name, from) ==> (#[trigger] source.functions[i]).name
                != name,
    decreases source.functions.len() - from,
{
    if from < source.functions.len() && source.functions[from].name != name {
        where_a_function_is(source, name, from + 1);
    }
}

/// One more thing said.
proof fn one_more_is_said(items: Seq<Item>, source: SourceForm, item: Item)
    requires
        is_said(items, source),
    ensures
        is_said(
            items.push(item),
            match item {
                Item::Apart(held) => source.with_type(held),
                Item::Loose(held) => source.with_type(held),
                Item::Clause(name, clause) => source.with_clause(name, clause),
            },
        ),
{
    let now = items.push(item);
    assert(now.drop_last() =~= items);
    names_are_listed_once(items);
    let names = names_in(items);
    if let Item::Clause(name, clause) = item {
        let after = source.with_clause(name, clause);
        let at = source.function_from(name, 0);
        where_a_function_is(source, name, 0);
        assert(names.contains(name) <==> at < source.functions.len()) by {
            if names.contains(name) {
                let i = names.index_of(name);
                assert(source.functions[i].name == names[i]);
            }
            if at < source.functions.len() {
                assert(names[at] == source.functions[at].name);
            }
        }
        assert forall|f: int| 0 <= f < after.functions.len() implies (
        #[trigger] after.functions[f]).name == names_in(now)[f] && after.functions[f].clauses
            == clauses_in(now, after.functions[f].name) by {
            if f < source.functions.len() {
                assert(source.functions[f].name == names[f]);
                if f != at {
                    assert(after.functions[f] == source.functions[f]);
                    if at < source.functions.len() {
                        assert(names[at] == source.functions[at].name);
                        assert(names[f] != names[at]);
                    } else {
                        assert(source.functions[f].name != name);
                    }
                }
            } else {
                assert(clauses_in(items, name) =~= seq![]);
                assert(seq![clause] =~= clauses_in(items, name).push(clause));
            }
        }
    } else {
        assert forall|f: int| 0 <= f < source.functions.len() implies (
        #[trigger] source.functions[f]).name == names_in(now)[f] && source.functions[f].clauses
            == clauses_in(now, source.functions[f].name) by {}
    }
}

/// What is said, from a place on.
proof fn items_read_back(
    words: Words,
    at: int,
    done: Seq<Item>,
    source: SourceForm,
    items: Seq<Item>,
)
    requires
        items_are_named(items),
        is_said(done, source),
        stands(words, at, items_words(items)),
        at + items_words(items).len() == words.len(),
    ensures
        syntax::source_from(words, at, source) matches Ok(read) && is_said(done + items, read),
    decreases items.len(),
{
    marks_differ();
    if items.len() == 0 {
        assert(done + items =~= done);
    } else {
        let item = items[0];
        let rest = items.drop_first();
        let own = item_words(item);
        assert(item_is_named(item));
        parts_stand(words, at, own, items_words(rest));
        let end = at + own.len();
        assert forall|i: int| 0 <= i < rest.len() implies item_is_named(#[trigger] rest[i]) by {
            assert(rest[i] == items[i + 1]);
        }
        assert(ends_a_type(words, end)) by {
            if rest.len() > 0 {
                let next = item_words(rest[0]);
                assert(item_is_named(rest[0]));
                parts_stand(words, end, next, items_words(rest.drop_first()));
                assert(words[end + 0] == next[0]);
                if let Item::Clause(name, clause) = rest[0] {
                    parts_stand(words, end, seq![name], clause_words(clause));
                    a_clause_begins(words, end + 1, clause);
                }
            }
        }
        assert(may_follow(words, end));
        assert(words[at + 0] == own[0]);
        let more = done.push(item);
        one_more_is_said(done, source, item);
        assert(more + rest =~= done + items);
        match item {
            Item::Apart(held) => {
                let head = seq!["type"@, held.name, "="@];
                parts_stand(words, at, head, barred(held.ctors));
                assert(words[at + 1] == head[1] && words[at + 2] == head[2]);
                barred_ctors_read_back(words, at + 3, seq![], held.ctors);
                assert(Seq::<CtorForm>::empty() + held.ctors =~= held.ctors);
                items_read_back(words, end, more, source.with_type(held), rest);
            },
            Item::Loose(held) => {
                let head = seq!["type"@, held.name];
                parts_stand(words, at, head, loose(held.ctors));
                assert(words[at + 1] == head[1]);
                assert(!syntax::is_at(words, at + 2, "="@)) by {
                    if held.ctors.len() > 0 {
                        assert(ctor_is_named(held.ctors[0]));
                        assert(words[at + 2 + 0] == loose(held.ctors)[0]);
                        assert(loose(held.ctors)[0] == ctor_words(held.ctors[0])[0]);
                    }
                }
                loose_ctors_read_back(words, at + 2, seq![], held.ctors);
                assert(Seq::<CtorForm>::empty() + held.ctors =~= held.ctors);
                items_read_back(words, end, more, source.with_type(held), rest);
            },
            Item::Clause(name, clause) => {
                parts_stand(words, at, seq![name], clause_words(clause));
                a_clause_reads_back(words, at + 1, clause);
                items_read_back(words, end, more, source.with_clause(name, clause), rest);
            },
        }
    }
}

/// A clause looks like one.
proof fn a_clause_begins(words: Words, at: int, clause: ClauseForm)
    requires
        clause_is_named(clause),
        stands(words, at, clause_words(clause)),
    ensures
        syntax::is_clause_at(words, at - 1),
{
    marks_differ();
    let open = seq!["("@];
    let patterns = patterns_words(clause.patterns) + seq![")"@];
    let arrow = seq!["->"@];
    let rest = steps_words(clause.steps) + term_words(clause.body);
    parts_stand(words, at, open, patterns + (arrow + rest));
    parts_stand(words, at + 1, patterns, arrow + rest);
    parts_stand(words, at + 1 + patterns.len(), arrow, rest);
    assert(words[at + 0] == open[0]);
    assert(words[at + 1 + patterns.len() + 0] == arrow[0]);
    patterns_read_back(words, at + 1, seq![], clause.patterns);
}

/// What is written out is read back: types with their constructors and the
/// types of their fields, functions with their clauses, each in the order it
/// was written in.
pub proof fn what_is_said_reads_back(items: Seq<Item>)
    requires
        items_are_named(items),
    ensures
        syntax::source_from(items_words(items), 0, SourceForm::nothing()) matches Ok(read)
            && is_said(items, read),
{
    let words = items_words(items);
    let none = Seq::<Item>::empty();
    assert(stands(words, 0, words));
    assert(is_said(none, SourceForm::nothing()));
    items_read_back(words, 0, none, SourceForm::nothing(), items);
    assert(none + items =~= items);
}

/// What stands between words and is none: a white character, or a comment up
/// to the end of its line.
pub enum Blank {
    White(char),
    Comment(Seq<char>),
}

pub open spec fn blank_text(blank: Blank) -> Seq<char> {
    match blank {
        Blank::White(character) => seq![character],
        Blank::Comment(said) => seq!['#'] + said + seq!['\n'],
    }
}

pub open spec fn is_blank(blank: Blank) -> bool {
    match blank {
        Blank::White(character) => text::whitespace(character) && character != '#',
        Blank::Comment(said) => forall|i: int|
            0 <= i < said.len() ==> #[trigger] said[i] != '\n',
    }
}

pub open spec fn blanks_text(blanks: Seq<Blank>) -> Seq<char>
    decreases blanks.len(),
{
    if blanks.len() == 0 {
        seq![]
    } else {
        blank_text(blanks[0]) + blanks_text(blanks.drop_first())
    }
}

pub open spec fn are_blank(blanks: Seq<Blank>) -> bool {
    forall|i: int| 0 <= i < blanks.len() ==> is_blank(#[trigger] blanks[i])
}

/// A word that is neither a mark nor an arrow, and holds none.
pub open spec fn is_plain(word: Seq<char>) -> bool {
    &&& word.len() > 0
    &&& forall|i: int|
        0 <= i < word.len() ==> (#[trigger] word[i]) != '#' && !syntax::is_mark(word[i])
            && !text::whitespace(word[i])
    &&& forall|i: int| 0 <= i < word.len() - 1 ==> !((#[trigger] word[i]) == '-' && word[i + 1] == '>')
}

/// A mark, or an arrow.
pub open spec fn is_sign(word: Seq<char>) -> bool {
    word == seq!['-', '>'] || (word.len() == 1 && syntax::is_mark(word[0]))
}

/// A word, and what stands between it and the next.
pub struct Spaced {
    pub word: Seq<char>,
    pub after: Seq<Blank>,
}

pub open spec fn spaced_text(held: Seq<Spaced>) -> Seq<char>
    decreases held.len(),
{
    if held.len() == 0 {
        seq![]
    } else {
        held[0].word + (blanks_text(held[0].after) + spaced_text(held.drop_first()))
    }
}

/// Whether words can be told apart: something stands between two plain ones.
pub open spec fn are_spaced(held: Seq<Spaced>) -> bool {
    forall|i: int|
        0 <= i < held.len() ==> {
            &&& is_plain((#[trigger] held[i]).word) || is_sign(held[i].word)
            &&& are_blank(held[i].after)
            &&& is_plain(held[i].word) && i + 1 < held.len() && is_plain(held[i + 1].word)
                ==> held[i].after.len() > 0
        }
}

/// The words alone.
pub open spec fn words_of(held: Seq<Spaced>) -> Words {
    Seq::new(held.len(), |i: int| held[i].word)
}

/// Whether characters stand at a place among others.
pub open spec fn stands_in(all: Seq<char>, at: int, part: Seq<char>) -> bool {
    &&& 0 <= at
    &&& at + part.len() <= all.len()
    &&& forall|i: int| 0 <= i < part.len() ==> all[at + i] == #[trigger] part[i]
}

proof fn parts_stand_in(all: Seq<char>, at: int, one: Seq<char>, other: Seq<char>)
    requires
        stands_in(all, at, one + other),
    ensures
        stands_in(all, at, one),
        stands_in(all, at + one.len(), other),
{
    let both = one + other;
    assert forall|i: int| 0 <= i < one.len() implies all[at + i] == #[trigger] one[i] by {
        assert(all[at + i] == both[i]);
    }
    assert forall|i: int| 0 <= i < other.len() implies all[at + one.len() + i]
        == #[trigger] other[i] by {
        assert(all[at + (one.len() + i)] == both[one.len() + i]);
    }
}

/// A comment goes on to the end of its line.
proof fn a_line_goes_on(all: Seq<char>, at: int, said: Seq<char>)
    requires
        stands_in(all, at, said + seq!['\n']),
        forall|i: int| 0 <= i < said.len() ==> #[trigger] said[i] != '\n',
    ensures
        syntax::line_end(all, at) == at + said.len(),
    decreases said.len(),
{
    let line = said + seq!['\n'];
    assert(all[at + 0] == line[0]);
    if said.len() > 0 {
        let rest = said.drop_first();
        assert(said[0] != '\n');
        assert(line =~= seq![said[0]] + (rest + seq!['\n']));
        parts_stand_in(all, at, seq![said[0]], rest + seq!['\n']);
        assert forall|i: int| 0 <= i < rest.len() implies #[trigger] rest[i] != '\n' by {
            assert(rest[i] == said[i + 1]);
        }
        a_line_goes_on(all, at + 1, rest);
    }
}

/// What is blank ends a word, and is no word.
proof fn blanks_are_passed_over(
    all: Seq<char>,
    at: int,
    done: Words,
    held: Seq<char>,
    blanks: Seq<Blank>,
)
    requires
        are_blank(blanks),
        stands_in(all, at, blanks_text(blanks)),
    ensures
        blanks.len() > 0 || held.len() == 0 ==> syntax::words_from(all, at, done, held)
            == syntax::words_from(
            all,
            at + blanks_text(blanks).len(),
            syntax::flushed(done, held),
            seq![],
        ),
    decreases blanks.len(),
{
    if blanks.len() == 0 {
        if held.len() == 0 {
            assert(held =~= seq![]);
        }
    } else {
        let first = blanks[0];
        let rest = blanks.drop_first();
        let own = blank_text(first);
        let flushed = syntax::flushed(done, held);
        assert(is_blank(first));
        parts_stand_in(all, at, own, blanks_text(rest));
        assert(all[at + 0] == own[0]);
        assert forall|i: int| 0 <= i < rest.len() implies is_blank(#[trigger] rest[i]) by {
            assert(rest[i] == blanks[i + 1]);
        }
        let end = at + own.len();
        blanks_are_passed_over(all, end, flushed, seq![], rest);
        assert(syntax::flushed(flushed, seq![]) == flushed);
        match first {
            Blank::White(character) => {
                white_is_no_mark(character);
                assert(syntax::words_from(all, at, done, held) == syntax::words_from(
                    all,
                    at + 1,
                    flushed,
                    seq![],
                ));
            },
            Blank::Comment(said) => {
                assert(own =~= seq!['#'] + (said + seq!['\n']));
                parts_stand_in(all, at, seq!['#'], said + seq!['\n']);
                a_line_goes_on(all, at + 1, said);
                let line = at + 1 + said.len();
                assert(all[line] == '\n') by {
                    parts_stand_in(all, at + 1, said, seq!['\n']);
                    assert(all[line + 0] == seq!['\n'][0]);
                }
                white_is_no_mark('\n');
                assert(syntax::words_from(all, at, done, held) == syntax::words_from(
                    all,
                    line,
                    flushed,
                    seq![],
                ));
                assert(syntax::words_from(all, line, flushed, seq![]) == syntax::words_from(
                    all,
                    line + 1,
                    flushed,
                    seq![],
                ));
            },
        }
    }
}

proof fn white_is_no_mark(character: char)
    requires
        text::whitespace(character),
    ensures
        !syntax::is_mark(character),
        character != '#',
        character != '-',
        text::whitespace('\n'),
{
}

/// A plain word is read to its end.
proof fn a_plain_word_is_held(all: Seq<char>, at: int, done: Words, word: Seq<char>, count: int)
    requires
        is_plain(word),
        stands_in(all, at, word),
        0 <= count <= word.len(),
        at + word.len() < all.len() && word.last() == '-' ==> all[at + word.len()] != '>',
    ensures
        syntax::words_from(all, at + count, done, word.take(count)) == syntax::words_from(
            all,
            at + word.len(),
            done,
            word,
        ),
    decreases word.len() - count,
{
    if count == word.len() {
        assert(word.take(count) =~= word);
    } else {
        assert(all[at + count] == word[count]);
        if count + 1 < word.len() {
            assert(all[at + (count + 1)] == word[count + 1]);
        }
        a_plain_word_is_held(all, at, done, word, count + 1);
        assert(word.take(count).push(word[count]) =~= word.take(count + 1));
    }
}

proof fn words_are_told_apart(all: Seq<char>, at: int, done: Words, held: Seq<Spaced>)
    requires
        are_spaced(held),
        stands_in(all, at, spaced_text(held)),
        at + spaced_text(held).len() == all.len(),
    ensures
        syntax::words_from(all, at, done, seq![]) == done + words_of(held),
    decreases held.len(),
{
    if held.len() == 0 {
        assert(done + words_of(held) =~= done);
    } else {
        let first = held[0];
        let rest = held.drop_first();
        let word = first.word;
        let blanks = blanks_text(first.after);
        assert(is_plain(word) || is_sign(word));
        parts_stand_in(all, at, word, blanks + spaced_text(rest));
        let end = at + word.len();
        parts_stand_in(all, end, blanks, spaced_text(rest));
        let next = end + blanks.len();
        assert forall|i: int| 0 <= i < rest.len() implies {
            &&& is_plain((#[trigger] rest[i]).word) || is_sign(rest[i].word)
            &&& are_blank(rest[i].after)
            &&& is_plain(rest[i].word) && i + 1 < rest.len() && is_plain(rest[i + 1].word)
                ==> rest[i].after.len() > 0
        } by {
            assert(rest[i] == held[i + 1]);
            if i + 1 < rest.len() {
                assert(rest[i + 1] == held[i + 2]);
            }
        }
        let more = done.push(word);
        words_are_told_apart(all, next, more, rest);
        assert(more + words_of(rest) =~= done + words_of(held));
        if is_sign(word) {
            assert(all[at + 0] == word[0]);
            reveal_strlit("->");
            if word == seq!['-', '>'] {
                assert(all[at + 1] == word[1]);
                assert("->"@ =~= word);
            } else {
                assert(word =~= seq![word[0]]);
            }
            assert(syntax::words_from(all, at, done, seq![]) == syntax::words_from(
                all,
                end,
                more,
                seq![],
            ));
            blanks_are_passed_over(all, end, more, seq![], first.after);
            assert(syntax::flushed(more, seq![]) == more);
        } else {
            assert(end < all.len() ==> all[end] != '>') by {
                if first.after.len() > 0 {
                    let blank = first.after[0];
                    assert(is_blank(blank));
                    assert(blanks[0] == blank_text(blank)[0]);
                    assert(all[end + 0] == blanks[0]);
                } else if rest.len() > 0 {
                    assert(rest[0] == held[1]);
                    assert(is_sign(rest[0].word));
                    assert(spaced_text(rest)[0] == rest[0].word[0]);
                    assert(all[next + 0] == spaced_text(rest)[0]);
                }
            }
            a_plain_word_is_held(all, at, done, word, 0);
            assert(word.take(0) =~= seq![]);
            blanks_are_passed_over(all, end, done, word, first.after);
            if first.after.len() == 0 {
                assert(next == end);
                if rest.len() > 0 {
                    assert(rest[0] == held[1]);
                    let sign = rest[0].word;
                    assert(is_sign(sign));
                    parts_stand_in(
                        all,
                        end,
                        sign,
                        blanks_text(rest[0].after) + spaced_text(rest.drop_first()),
                    );
                    a_sign_ends_a_word(all, end, done, word, sign);
                }
            }
        }
    }
}

/// A mark ends a word as well as a blank does.
proof fn a_sign_ends_a_word(all: Seq<char>, at: int, done: Words, held: Seq<char>, sign: Seq<char>)
    requires
        is_sign(sign),
        stands_in(all, at, sign),
        held.len() > 0,
    ensures
        syntax::words_from(all, at, done, held) == syntax::words_from(
            all,
            at,
            done.push(held),
            seq![],
        ),
{
    assert(all[at + 0] == sign[0]);
    if sign == seq!['-', '>'] {
        assert(all[at + 1] == sign[1]);
    }
    assert(syntax::flushed(done.push(held), seq![]) == syntax::flushed(done, held));
}

/// The words of a text are what was written: plain words, marks and arrows,
/// with white space and comments between them that are none.
pub proof fn words_read_back(before: Seq<Blank>, held: Seq<Spaced>)
    requires
        are_blank(before),
        are_spaced(held),
    ensures
        syntax::words(blanks_text(before) + spaced_text(held)) == words_of(held),
{
    let all = blanks_text(before) + spaced_text(held);
    let none = Words::empty();
    assert(stands_in(all, 0, blanks_text(before)));
    assert(stands_in(all, blanks_text(before).len() as int, spaced_text(held)));
    blanks_are_passed_over(all, 0, none, seq![], before);
    words_are_told_apart(all, blanks_text(before).len() as int, none, held);
    assert(none + words_of(held) =~= words_of(held));
}

/// A text reads back as what it was written to say, however its words are set
/// apart.
pub proof fn a_text_reads_back(items: Seq<Item>, before: Seq<Blank>, held: Seq<Spaced>)
    requires
        items_are_named(items),
        are_blank(before),
        are_spaced(held),
        words_of(held) == items_words(items),
    ensures
        syntax::source(blanks_text(before) + spaced_text(held)) matches Ok(read) && is_said(
            items,
            read,
        ),
{
    words_read_back(before, held);
    what_is_said_reads_back(items);
}

} // verus!
