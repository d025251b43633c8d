//! The words of a program, and what they say: its types, and the clauses of
//! its functions.
//!
//! ```text
//! type Nat Zero Succ(Nat)
//!
//! add(Zero b) -> b
//! add(Succ(a) b) -> Succ(add(a b))
//! ```
//!
//! The constructors of a type may be set apart, as in
//! `type Nat = Zero | Succ(Nat)`.

use crate::text;
use vstd::prelude::*;
use vstd::string::StringExecFns;

verus! {

/// Texts, each as its characters.
pub open spec fn texts(held: Seq<String>) -> Seq<Seq<char>> {
    Seq::new(held.len(), |i: int| held[i]@)
}

/// The characters that are a word each.
pub open spec fn is_mark(character: char) -> bool {
    character == '(' || character == ')' || character == ',' || character == '=' || character == '|'
        || character == ':'
}

/// The words so far, with the one being read.
pub open spec fn flushed(words: Seq<Seq<char>>, held: Seq<char>) -> Seq<Seq<char>> {
    if held.len() == 0 {
        words
    } else {
        words.push(held)
    }
}

/// Where the line that goes on at `at` ends.
pub open spec fn line_end(text: Seq<char>, at: int) -> int
    decreases text.len() - at,
{
    if at >= text.len() || text[at] == '\n' {
        at
    } else {
        line_end(text, at + 1)
    }
}

pub proof fn a_line_ends_further_on(text: Seq<char>, at: int)
    requires
        at <= text.len(),
    ensures
        at <= line_end(text, at) <= text.len(),
    decreases text.len() - at,
{
    if !(at >= text.len() || text[at] == '\n') {
        a_line_ends_further_on(text, at + 1);
    }
}

/// The words of a text from `at` on, after those in `words` and what there
/// is of one in `held`. White space ends a word, and so does a comment,
/// which runs from `#` to the end of its line; an arrow and each mark are
/// words of their own.
pub open spec fn words_from(
    text: Seq<char>,
    at: int,
    words: Seq<Seq<char>>,
    held: Seq<char>,
) -> Seq<Seq<char>>
    decreases text.len() - at,
{
    let done = flushed(words, held);
    if at >= text.len() {
        done
    } else if text[at] == '#' {
        proof {
            a_line_ends_further_on(text, at + 1);
        }
        words_from(text, line_end(text, at + 1), done, seq![])
    } else if text[at] == '-' && at + 1 < text.len() && text[at + 1] == '>' {
        words_from(text, at + 2, done.push("->"@), seq![])
    } else if is_mark(text[at]) {
        words_from(text, at + 1, done.push(seq![text[at]]), seq![])
    } else if text::whitespace(text[at]) {
        words_from(text, at + 1, done, seq![])
    } else {
        words_from(text, at + 1, words, held.push(text[at]))
    }
}

/// Words and punctuation, in order.
pub open spec fn words(text: Seq<char>) -> Seq<Seq<char>> {
    words_from(text, 0, seq![], seq![])
}

/// Whether a word is punctuation, which is never a name.
pub open spec fn is_punctuation(word: Seq<char>) -> bool {
    ||| word == "("@
    ||| word == ")"@
    ||| word == ","@
    ||| word == "="@
    ||| word == "|"@
    ||| word == ":"@
    ||| word == "->"@
}

/// The name at a place.
pub open spec fn name_at(words: Seq<Seq<char>>, at: int) -> Result<Seq<char>, Seq<char>> {
    if at >= words.len() {
        Err("the program ends early"@)
    } else if is_punctuation(words[at]) {
        Err("expected a name, found `"@ + words[at] + "`"@)
    } else {
        Ok(words[at])
    }
}

/// Whether the word at a place is `want`.
pub open spec fn is_at(words: Seq<Seq<char>>, at: int, want: Seq<char>) -> bool {
    at < words.len() && words[at] == want
}

/// What is said where another word is wanted than the one there is.
pub open spec fn unexpected(words: Seq<Seq<char>>, at: int, want: Seq<char>) -> Seq<char> {
    "expected `"@ + want + "`, found "@ + if at < words.len() {
        "Some("@ + text::quotation(words[at]) + ")"@
    } else {
        "None"@
    }
}

/// Names up to a closing parenthesis, and what comes after it.
pub open spec fn names_from(
    words: Seq<Seq<char>>,
    at: int,
    names: Seq<Seq<char>>,
) -> Result<(Seq<Seq<char>>, int), Seq<char>>
    decreases words.len() - at,
{
    if is_at(words, at, ")"@) {
        Ok((names, at + 1))
    } else {
        match name_at(words, at) {
            Ok(name) => names_from(words, at + 1, names.push(name)),
            Err(said) => Err(said),
        }
    }
}

/// A parenthesised run of bare words.
pub open spec fn names_at(words: Seq<Seq<char>>, at: int) -> Result<
    (Seq<Seq<char>>, int),
    Seq<char>,
> {
    if is_at(words, at, "("@) {
        names_from(words, at + 1, seq![])
    } else {
        Err(unexpected(words, at, "("@))
    }
}

pub proof fn names_end_further_on(words: Seq<Seq<char>>, at: int, names: Seq<Seq<char>>)
    ensures
        names_from(words, at, names) matches Ok((_, end)) ==> at < end <= words.len(),
    decreases words.len() - at,
{
    if !is_at(words, at, ")"@) {
        if let Ok(name) = name_at(words, at) {
            names_end_further_on(words, at + 1, names.push(name));
        }
    }
}

/// What a clause matches in one argument: a name, or a constructor and the
/// names its fields take.
#[verifier::ext_equal]
pub enum PatternForm {
    Bind(Seq<char>),
    Ctor(Seq<char>, Seq<Seq<char>>),
}

#[verifier::ext_equal]
pub enum TermForm {
    Name(Seq<char>),
    Apply(Seq<char>, Seq<TermForm>),
}

#[verifier::ext_equal]
pub struct StepForm {
    pub name: Seq<char>,
    pub term: TermForm,
}

#[verifier::ext_equal]
pub struct ClauseForm {
    pub patterns: Seq<PatternForm>,
    /// What the clause works out on the way, each bound to a name. A result
    /// that is not wanted is bound to one that is not read.
    pub steps: Seq<StepForm>,
    /// What the clause answers.
    pub body: TermForm,
}

/// A constructor as written: its name, then its field types.
#[verifier::ext_equal]
pub struct CtorForm {
    pub name: Seq<char>,
    pub fields: Seq<Seq<char>>,
}

/// A type as written: its name, then each constructor.
#[verifier::ext_equal]
pub struct TypeForm {
    pub name: Seq<char>,
    pub ctors: Seq<CtorForm>,
}

#[verifier::ext_equal]
pub struct FunctionForm {
    pub name: Seq<char>,
    pub clauses: Seq<ClauseForm>,
}

/// What a program says, before any of it means anything.
#[verifier::ext_equal]
pub struct SourceForm {
    pub types: Seq<TypeForm>,
    /// The functions in the order they were first written.
    pub functions: Seq<FunctionForm>,
}

/// Patterns up to a closing parenthesis, and what comes after it.
pub open spec fn patterns_from(
    words: Seq<Seq<char>>,
    at: int,
    patterns: Seq<PatternForm>,
) -> Result<(Seq<PatternForm>, int), Seq<char>>
    decreases words.len() - at,
{
    if is_at(words, at, ")"@) {
        Ok((patterns, at + 1))
    } else {
        match name_at(words, at) {
            Ok(head) => if is_at(words, at + 1, "("@) {
                proof {
                    names_end_further_on(words, at + 2, seq![]);
                }
                match names_at(words, at + 1) {
                    Ok((names, end)) => patterns_from(
                        words,
                        end,
                        patterns.push(PatternForm::Ctor(head, names)),
                    ),
                    Err(said) => Err(said),
                }
            } else {
                patterns_from(words, at + 1, patterns.push(PatternForm::Bind(head)))
            },
            Err(said) => Err(said),
        }
    }
}

pub open spec fn patterns_at(words: Seq<Seq<char>>, at: int) -> Result<
    (Seq<PatternForm>, int),
    Seq<char>,
> {
    if is_at(words, at, "("@) {
        patterns_from(words, at + 1, seq![])
    } else {
        Err(unexpected(words, at, "("@))
    }
}

/// A name, or one applied to terms.
pub open spec fn term_at(words: Seq<Seq<char>>, at: int) -> Result<(TermForm, int), Seq<char>>
    decreases words.len() - at, 0nat,
{
    match name_at(words, at) {
        Ok(head) => if is_at(words, at + 1, "("@) {
            match terms_from(words, at + 2, seq![]) {
                Ok((args, end)) => Ok((TermForm::Apply(head, args), end)),
                Err(said) => Err(said),
            }
        } else {
            Ok((TermForm::Name(head), at + 1))
        },
        Err(said) => Err(said),
    }
}

/// Terms up to a closing parenthesis, and what comes after it.
pub open spec fn terms_from(
    words: Seq<Seq<char>>,
    at: int,
    terms: Seq<TermForm>,
) -> Result<(Seq<TermForm>, int), Seq<char>>
    decreases words.len() - at, 1nat,
{
    if is_at(words, at, ")"@) {
        Ok((terms, at + 1))
    } else {
        match term_at(words, at) {
            Ok((term, end)) => if at < end <= words.len() {
                terms_from(words, end, terms.push(term))
            } else {
                Ok((terms, end))
            },
            Err(said) => Err(said),
        }
    }
}

/// A term takes words, and no more than there are.
pub proof fn a_term_ends_further_on(words: Seq<Seq<char>>, at: int)
    requires
        0 <= at,
    ensures
        term_at(words, at) matches Ok((_, end)) ==> at < end <= words.len(),
    decreases words.len() - at, 0nat,
{
    if name_at(words, at) is Ok && is_at(words, at + 1, "("@) {
        terms_end_further_on(words, at + 2, seq![]);
    }
}

pub proof fn terms_end_further_on(words: Seq<Seq<char>>, at: int, terms: Seq<TermForm>)
    requires
        0 <= at,
    ensures
        terms_from(words, at, terms) matches Ok((_, end)) ==> at < end <= words.len(),
    decreases words.len() - at, 1nat,
{
    if !is_at(words, at, ")"@) {
        a_term_ends_further_on(words, at);
        if let Ok((term, end)) = term_at(words, at) {
            terms_end_further_on(words, end, terms.push(term));
        }
    }
}

/// Where the parenthesis that encloses `at`, and `depth` in all, closes.
pub open spec fn group_end(words: Seq<Seq<char>>, at: int, depth: nat) -> int
    decreases words.len() - at,
{
    if at >= words.len() || depth == 0 {
        at
    } else if words[at] == "("@ {
        group_end(words, at + 1, depth + 1)
    } else if words[at] == ")"@ {
        group_end(words, at + 1, (depth - 1) as nat)
    } else {
        group_end(words, at + 1, depth)
    }
}

/// Whether a clause begins at a place: a word, then something in
/// parentheses, then an arrow.
pub open spec fn is_clause_at(words: Seq<Seq<char>>, at: int) -> bool {
    is_at(words, at + 1, "("@) && is_at(words, group_end(words, at + 2, 1), "->"@)
}

/// A constructor and the types of its fields.
pub open spec fn ctor_at(words: Seq<Seq<char>>, at: int) -> Result<(CtorForm, int), Seq<char>> {
    match name_at(words, at) {
        Ok(name) => if is_at(words, at + 1, "("@) {
            match names_at(words, at + 1) {
                Ok((fields, end)) => Ok((CtorForm { name, fields }, end)),
                Err(said) => Err(said),
            }
        } else {
            Ok((CtorForm { name, fields: seq![] }, at + 1))
        },
        Err(said) => Err(said),
    }
}

pub proof fn a_ctor_ends_further_on(words: Seq<Seq<char>>, at: int)
    ensures
        ctor_at(words, at) matches Ok((_, end)) ==> at < end <= words.len(),
{
    names_end_further_on(words, at + 2, seq![]);
}

/// Constructors, one after the other, up to where something else begins.
pub open spec fn ctors_from(
    words: Seq<Seq<char>>,
    at: int,
    ctors: Seq<CtorForm>,
) -> Result<(Seq<CtorForm>, int), Seq<char>>
    decreases words.len() - at,
{
    if at >= words.len() || words[at] == "type"@ || is_clause_at(words, at) {
        Ok((ctors, at))
    } else {
        proof {
            a_ctor_ends_further_on(words, at);
        }
        match ctor_at(words, at) {
            Ok((ctor, end)) => ctors_from(words, end, ctors.push(ctor)),
            Err(said) => Err(said),
        }
    }
}

/// Constructors set apart: one, then one after each bar.
pub open spec fn ctors_apart(
    words: Seq<Seq<char>>,
    at: int,
    ctors: Seq<CtorForm>,
) -> Result<(Seq<CtorForm>, int), Seq<char>>
    decreases words.len() - at,
{
    proof {
        a_ctor_ends_further_on(words, at);
    }
    match ctor_at(words, at) {
        Ok((ctor, end)) => if is_at(words, end, "|"@) {
            ctors_apart(words, end + 1, ctors.push(ctor))
        } else {
            Ok((ctors.push(ctor), end))
        },
        Err(said) => Err(said),
    }
}

/// A type, from its name on.
pub open spec fn type_at(words: Seq<Seq<char>>, at: int) -> Result<(TypeForm, int), Seq<char>> {
    match name_at(words, at) {
        Ok(name) => {
            let held = if is_at(words, at + 1, "="@) {
                ctors_apart(words, at + 2, seq![])
            } else {
                ctors_from(words, at + 1, seq![])
            };
            match held {
                Ok((ctors, end)) => Ok((TypeForm { name, ctors }, end)),
                Err(said) => Err(said),
            }
        },
        Err(said) => Err(said),
    }
}

/// Everything up to the last term is bound to a name; the last is what the
/// clause answers. A step is what is followed by an equals, which is what
/// tells a body from the clause after it.
pub open spec fn steps_from(
    words: Seq<Seq<char>>,
    at: int,
    steps: Seq<StepForm>,
) -> Result<(Seq<StepForm>, int), Seq<char>>
    decreases words.len() - at,
{
    if is_at(words, at + 1, "="@) {
        match name_at(words, at) {
            Ok(name) => match term_at(words, at + 2) {
                Ok((term, end)) => if at < end <= words.len() {
                    steps_from(words, end, steps.push(StepForm { name, term }))
                } else {
                    Ok((steps, end))
                },
                Err(said) => Err(said),
            },
            Err(said) => Err(said),
        }
    } else {
        Ok((steps, at))
    }
}

/// A clause, from the arguments of the function it is one of on.
pub open spec fn clause_at(words: Seq<Seq<char>>, at: int) -> Result<
    (ClauseForm, int),
    Seq<char>,
> {
    match patterns_at(words, at) {
        Ok((patterns, arrow)) => if is_at(words, arrow, "->"@) {
            match steps_from(words, arrow + 1, seq![]) {
                Ok((steps, last)) => match term_at(words, last) {
                    Ok((body, end)) => Ok((ClauseForm { patterns, steps, body }, end)),
                    Err(said) => Err(said),
                },
                Err(said) => Err(said),
            }
        } else {
            Err(unexpected(words, arrow, "->"@))
        },
        Err(said) => Err(said),
    }
}

impl SourceForm {
    pub open spec fn nothing() -> SourceForm {
        SourceForm { types: seq![], functions: seq![] }
    }

    /// Which function has a name, from `from` on.
    pub open spec fn function_from(self, name: Seq<char>, from: int) -> int
        decreases self.functions.len() - from,
    {
        if from >= self.functions.len() || self.functions[from].name == name {
            from
        } else {
            self.function_from(name, from + 1)
        }
    }

    /// Whether every function has a clause.
    pub open spec fn is_written(self) -> bool {
        forall|i: int|
            0 <= i < self.functions.len() ==> (#[trigger] self.functions[i]).clauses.len() > 0
    }

    pub open spec fn with_type(self, held: TypeForm) -> SourceForm {
        SourceForm { types: self.types.push(held), ..self }
    }

    /// With one more clause of a function, which is a new one where there is
    /// none of that name.
    pub open spec fn with_clause(self, name: Seq<char>, clause: ClauseForm) -> SourceForm {
        let at = self.function_from(name, 0);
        if at < self.functions.len() {
            let held = self.functions[at];
            SourceForm {
                functions: self.functions.update(
                    at,
                    FunctionForm { name: held.name, clauses: held.clauses.push(clause) },
                ),
                ..self
            }
        } else {
            SourceForm {
                functions: self.functions.push(FunctionForm { name, clauses: seq![clause] }),
                ..self
            }
        }
    }
}

/// What a program says from `at` on, after what it has said so far.
pub open spec fn source_from(words: Seq<Seq<char>>, at: int, source: SourceForm) -> Result<
    SourceForm,
    Seq<char>,
>
    decreases words.len() - at,
{
    if at >= words.len() {
        Ok(source)
    } else if words[at] == "type"@ {
        match type_at(words, at + 1) {
            Ok((held, end)) => if at < end <= words.len() {
                source_from(words, end, source.with_type(held))
            } else {
                Ok(source)
            },
            Err(said) => Err(said),
        }
    } else {
        match name_at(words, at) {
            Ok(name) => match clause_at(words, at + 1) {
                Ok((clause, end)) => if at < end <= words.len() {
                    source_from(words, end, source.with_clause(name, clause))
                } else {
                    Ok(source)
                },
                Err(said) => Err(said),
            },
            Err(said) => Err(said),
        }
    }
}

/// What a program says.
pub open spec fn source(text: Seq<char>) -> Result<SourceForm, Seq<char>> {
    source_from(words(text), 0, SourceForm::nothing())
}

/// What a clause matches in one argument: a name, or a constructor and the
/// names its fields take.
#[derive(Debug)]
pub enum Pattern {
    Bind(String),
    Ctor(String, Vec<String>),
}

impl View for Pattern {
    type V = PatternForm;

    open spec fn view(&self) -> PatternForm {
        match self {
            Pattern::Bind(name) => PatternForm::Bind(name@),
            Pattern::Ctor(name, fields) => PatternForm::Ctor(name@, texts(fields@)),
        }
    }
}

pub open spec fn pattern_forms(held: Seq<Pattern>) -> Seq<PatternForm> {
    Seq::new(held.len(), |i: int| held[i]@)
}

#[derive(Debug)]
pub enum Term {
    Name(String),
    Apply(String, Vec<Term>),
}

pub open spec fn term_form(term: Term) -> TermForm
    decreases term,
{
    match term {
        Term::Name(name) => TermForm::Name(name@),
        Term::Apply(name, args) => TermForm::Apply(name@, term_forms(args@)),
    }
}

pub open spec fn term_forms(terms: Seq<Term>) -> Seq<TermForm>
    decreases terms,
{
    if terms.len() == 0 {
        seq![]
    } else {
        term_forms(terms.drop_last()).push(term_form(terms.last()))
    }
}

/// The forms of terms are the forms of each.
pub proof fn forms_are_each(terms: Seq<Term>)
    ensures
        term_forms(terms).len() == terms.len(),
        forall|i: int| 0 <= i < terms.len() ==> #[trigger] term_forms(terms)[i] == term_form(
            terms[i],
        ),
    decreases terms.len(),
{
    if terms.len() > 0 {
        forms_are_each(terms.drop_last());
        assert forall|i: int| 0 <= i < terms.len() implies #[trigger] term_forms(terms)[i]
            == term_form(terms[i]) by {
            if i < terms.len() - 1 {
                assert(term_forms(terms)[i] == term_forms(terms.drop_last())[i]);
            }
        }
    }
}

impl View for Term {
    type V = TermForm;

    open spec fn view(&self) -> TermForm {
        term_form(*self)
    }
}

#[derive(Debug)]
pub struct Step {
    pub name: String,
    pub term: Term,
}

impl View for Step {
    type V = StepForm;

    open spec fn view(&self) -> StepForm {
        StepForm { name: self.name@, term: self.term@ }
    }
}

pub open spec fn step_forms(held: Seq<Step>) -> Seq<StepForm> {
    Seq::new(held.len(), |i: int| held[i]@)
}

#[derive(Debug)]
pub struct Clause {
    pub patterns: Vec<Pattern>,
    pub steps: Vec<Step>,
    pub body: Term,
}

impl View for Clause {
    type V = ClauseForm;

    open spec fn view(&self) -> ClauseForm {
        ClauseForm {
            patterns: pattern_forms(self.patterns@),
            steps: step_forms(self.steps@),
            body: self.body@,
        }
    }
}

pub open spec fn clause_forms(held: Seq<Clause>) -> Seq<ClauseForm> {
    Seq::new(held.len(), |i: int| held[i]@)
}

/// A constructor as written: its name, then its field types.
#[derive(Debug)]
pub struct Constructor {
    pub name: String,
    pub fields: Vec<String>,
}

impl View for Constructor {
    type V = CtorForm;

    open spec fn view(&self) -> CtorForm {
        CtorForm { name: self.name@, fields: texts(self.fields@) }
    }
}

pub open spec fn ctor_forms(held: Seq<Constructor>) -> Seq<CtorForm> {
    Seq::new(held.len(), |i: int| held[i]@)
}

/// A type as written: its name, then each constructor.
#[derive(Debug)]
pub struct Declaration {
    pub name: String,
    pub ctors: Vec<Constructor>,
}

impl View for Declaration {
    type V = TypeForm;

    open spec fn view(&self) -> TypeForm {
        TypeForm { name: self.name@, ctors: ctor_forms(self.ctors@) }
    }
}

pub open spec fn type_forms(held: Seq<Declaration>) -> Seq<TypeForm> {
    Seq::new(held.len(), |i: int| held[i]@)
}

/// A function as written: its name, then its clauses.
#[derive(Debug)]
pub struct Definition {
    pub name: String,
    pub clauses: Vec<Clause>,
}

impl View for Definition {
    type V = FunctionForm;

    open spec fn view(&self) -> FunctionForm {
        FunctionForm { name: self.name@, clauses: clause_forms(self.clauses@) }
    }
}

pub open spec fn function_forms(held: Seq<Definition>) -> Seq<FunctionForm> {
    Seq::new(held.len(), |i: int| held[i]@)
}

/// What a program says, before any of it means anything.
#[derive(Debug)]
pub struct Source {
    pub types: Vec<Declaration>,
    /// The functions in the order they were first written.
    pub functions: Vec<Definition>,
}

impl View for Source {
    type V = SourceForm;

    open spec fn view(&self) -> SourceForm {
        SourceForm {
            types: type_forms(self.types@),
            functions: function_forms(self.functions@),
        }
    }
}

fn flush(held: &mut String, words: &mut Vec<String>)
    ensures
        texts(final(words)@) == flushed(texts(old(words)@), old(held)@),
        final(held)@ == Seq::<char>::empty(),
{
    if held.as_str().is_empty() {
        assert(held@ =~= seq![]);
        return ;
    }
    let mut word = String::new();
    std::mem::swap(held, &mut word);
    words.push(word);
    assert(texts(words@) =~= flushed(texts(old(words)@), old(held)@));
}

/// Words and punctuation, in order.
pub struct Words {
    words: Vec<String>,
    at: usize,
}

impl Words {
    pub closed spec fn all(&self) -> Seq<Seq<char>> {
        texts(self.words@)
    }

    pub closed spec fn at(&self) -> int {
        self.at as int
    }

    pub fn new(text: &str) -> (words: Self)
        ensures
            words.all() == self::words(text@),
            words.at() == 0,
    {
        let held = text::characters(text);
        let ghost whole = text@;
        let mut words: Vec<String> = Vec::new();
        let mut word = String::new();
        let mut at: usize = 0;
        assert(texts(words@) =~= seq![]);
        assert(word@ =~= seq![]);
        while at < held.len()
            invariant
                held@ == whole,
                at <= held@.len(),
                self::words(whole) == words_from(whole, at as int, texts(words@), word@),
            decreases held@.len() - at,
        {
            let character: char = held[at];
            if character == '#' {
                flush(&mut word, &mut words);
                let mut end: usize = at + 1;
                proof {
                    a_line_ends_further_on(whole, at + 1);
                }
                while end < held.len() && held[end] != '\n'
                    invariant
                        held@ == whole,
                        at < end <= held@.len(),
                        line_end(whole, end as int) == line_end(whole, at + 1),
                    decreases held@.len() - end,
                {
                    end = end + 1;
                }
                at = end;
            } else if character == '-' && at + 1 < held.len() && held[at + 1] == '>' {
                flush(&mut word, &mut words);
                let ghost before = texts(words@);
                words.push("->".to_owned());
                assert(texts(words@) =~= before.push("->"@));
                at = at + 2;
            } else if character == '(' || character == ')' || character == ',' || character == '='
                || character == '|' || character == ':' {
                flush(&mut word, &mut words);
                let ghost before = texts(words@);
                let mut mark = String::new();
                mark.push(character);
                assert(mark@ =~= seq![character]);
                words.push(mark);
                assert(texts(words@) =~= before.push(seq![character]));
                at = at + 1;
            } else if text::is_whitespace(character) {
                flush(&mut word, &mut words);
                at = at + 1;
            } else {
                word.push(character);
                at = at + 1;
            }
        }
        flush(&mut word, &mut words);
        Self { words, at: 0 }
    }

    /// Whether this has come no further than there are words.
    pub open spec fn wf(&self) -> bool {
        0 <= self.at() <= self.all().len()
    }

    /// Whether the word `ahead` past the next one is `want`.
    fn is(&self, ahead: usize, want: &str) -> (same: bool)
        requires
            self.wf(),
        ensures
            same == is_at(self.all(), self.at() + ahead, want@),
    {
        ahead < self.words.len() - self.at && text::same(
            self.words[self.at + ahead].as_str(),
            want,
        )
    }

    fn done(&self) -> (done: bool)
        requires
            self.wf(),
        ensures
            done == (self.at() >= self.all().len()),
    {
        self.at >= self.words.len()
    }

    /// Go past the next word.
    fn skip(&mut self)
        requires
            old(self).wf(),
            old(self).at() < old(self).all().len(),
        ensures
            final(self).wf(),
            final(self).all() == old(self).all(),
            final(self).at() == old(self).at() + 1,
    {
        assert(self.at < self.words.len());
        self.at = self.at + 1;
    }

    /// A name. Punctuation is never one, so a stray comma is refused rather
    /// than bound as though it were a variable.
    fn word(&mut self) -> (name: Result<String, String>)
        requires
            old(self).wf(),
        ensures
            final(self).wf(),
            final(self).all() == old(self).all(),
            match name {
                Ok(found) => name_at(old(self).all(), old(self).at()) == Ok::<_, Seq<char>>(found@)
                    && final(self).at() == old(self).at() + 1,
                Err(said) => name_at(old(self).all(), old(self).at()) == Err::<Seq<char>, _>(said@),
            },
    {
        if self.at >= self.words.len() {
            return Err("the program ends early".to_owned());
        }
        let word = self.words[self.at].as_str();
        if text::same(word, "(") || text::same(word, ")") || text::same(word, ",") || text::same(
            word,
            "=",
        ) || text::same(word, "|") || text::same(word, ":") || text::same(word, "->") {
            let mut said = String::new();
            said.append("expected a name, found `");
            said.append(word);
            said.append("`");
            assert(said@ =~= "expected a name, found `"@ + word@ + "`"@);
            return Err(said);
        }
        let name = word.to_owned();
        self.at = self.at + 1;
        Ok(name)
    }

    /// What is said where another word is wanted than the next one.
    fn refuse(&self, want: &str) -> (said: String)
        requires
            self.wf(),
        ensures
            said@ == unexpected(self.all(), self.at(), want@),
    {
        let mut said = String::new();
        said.append("expected `");
        said.append(want);
        said.append("`, found ");
        if self.at < self.words.len() {
            said.append("Some(");
            let shown = text::quoted(self.words[self.at].as_str());
            said.append(shown.as_str());
            said.append(")");
        } else {
            said.append("None");
        }
        assert(said@ =~= unexpected(self.all(), self.at(), want@));
        said
    }

    /// A parenthesised run of bare words.
    fn names(&mut self) -> (read: Result<Vec<String>, String>)
        requires
            old(self).wf(),
        ensures
            final(self).wf(),
            final(self).all() == old(self).all(),
            match read {
                Ok(names) => names_at(old(self).all(), old(self).at()) == Ok::<_, Seq<char>>(
                    (texts(names@), final(self).at()),
                ) && old(self).at() < final(self).at(),
                Err(said) => names_at(old(self).all(), old(self).at()) == Err::<
                    (Seq<Seq<char>>, int),
                    _,
                >(said@),
            },
    {
        let ghost all = self.all();
        let ghost start = self.at();
        if !self.is(0, "(") {
            return Err(self.refuse("("));
        }
        self.skip();
        let mut names: Vec<String> = Vec::new();
        assert(texts(names@) =~= seq![]);
        while !self.is(0, ")")
            invariant
                self.wf(),
                self.all() == all,
                start < self.at(),
                all == old(self).all(),
                start == old(self).at(),
                names_at(all, start) == names_from(all, self.at(), texts(names@)),
            decreases all.len() - self.at(),
        {
            let ghost before = texts(names@);
            match self.word() {
                Ok(name) => {
                    names.push(name);
                    assert(texts(names@) =~= before.push(name@));
                },
                Err(said) => {
                    return Err(said);
                },
            }
        }
        self.skip();
        Ok(names)
    }

    fn patterns(&mut self) -> (read: Result<Vec<Pattern>, String>)
        requires
            old(self).wf(),
        ensures
            final(self).wf(),
            final(self).all() == old(self).all(),
            match read {
                Ok(held) => patterns_at(old(self).all(), old(self).at()) == Ok::<_, Seq<char>>(
                    (pattern_forms(held@), final(self).at()),
                ) && old(self).at() < final(self).at(),
                Err(said) => patterns_at(old(self).all(), old(self).at()) == Err::<
                    (Seq<PatternForm>, int),
                    _,
                >(said@),
            },
    {
        let ghost all = self.all();
        let ghost start = self.at();
        if !self.is(0, "(") {
            return Err(self.refuse("("));
        }
        self.skip();
        let mut held: Vec<Pattern> = Vec::new();
        assert(pattern_forms(held@) =~= seq![]);
        while !self.is(0, ")")
            invariant
                self.wf(),
                self.all() == all,
                start < self.at(),
                all == old(self).all(),
                start == old(self).at(),
                patterns_at(all, start) == patterns_from(all, self.at(), pattern_forms(held@)),
            decreases all.len() - self.at(),
        {
            let ghost before = pattern_forms(held@);
            let head = match self.word() {
                Ok(head) => head,
                Err(said) => {
                    return Err(said);
                },
            };
            if self.is(0, "(") {
                match self.names() {
                    Ok(names) => {
                        held.push(Pattern::Ctor(head, names));
                        assert(pattern_forms(held@) =~= before.push(
                            PatternForm::Ctor(head@, texts(names@)),
                        ));
                    },
                    Err(said) => {
                        return Err(said);
                    },
                }
            } else {
                held.push(Pattern::Bind(head));
                assert(pattern_forms(held@) =~= before.push(PatternForm::Bind(head@)));
            }
        }
        self.skip();
        Ok(held)
    }

    fn term(&mut self) -> (read: Result<Term, String>)
        requires
            old(self).wf(),
        ensures
            final(self).wf(),
            final(self).all() == old(self).all(),
            match read {
                Ok(term) => term_at(old(self).all(), old(self).at()) == Ok::<_, Seq<char>>(
                    (term@, final(self).at()),
                ) && old(self).at() < final(self).at(),
                Err(said) => term_at(old(self).all(), old(self).at()) == Err::<(TermForm, int), _>(
                    said@,
                ),
            },
        decreases old(self).all().len() - old(self).at(),
    {
        let ghost all = self.all();
        let ghost start = self.at();
        let head = match self.word() {
            Ok(head) => head,
            Err(said) => {
                return Err(said);
            },
        };
        if !self.is(0, "(") {
            return Ok(Term::Name(head));
        }
        self.skip();
        let mut args: Vec<Term> = Vec::new();
        assert(term_forms(args@) =~= seq![]);
        while !self.is(0, ")")
            invariant
                self.wf(),
                self.all() == all,
                all == old(self).all(),
                start == old(self).at(),
                start + 2 <= self.at(),
                name_at(all, start) == Ok::<_, Seq<char>>(head@),
                is_at(all, start + 1, "("@),
                terms_from(all, start + 2, seq![]) == terms_from(
                    all,
                    self.at(),
                    term_forms(args@),
                ),
            decreases all.len() - self.at(),
        {
            let ghost before = args@;
            match self.term() {
                Ok(term) => {
                    args.push(term);
                    assert(args@.drop_last() =~= before);
                    assert(term_forms(args@) =~= term_forms(before).push(term@));
                },
                Err(said) => {
                    return Err(said);
                },
            }
        }
        self.skip();
        Ok(Term::Apply(head, args))
    }

    /// Whether a clause begins here: a word, then something in parentheses,
    /// then an arrow.
    fn begins_clause(&self) -> (begins: bool)
        requires
            self.wf(),
        ensures
            begins == is_clause_at(self.all(), self.at()),
    {
        if !self.is(1, "(") {
            return false;
        }
        let ghost all = self.all();
        let ghost start = self.at() + 2;
        let count: usize = self.words.len();
        assert(self.at + 1 < count);
        let mut at: usize = self.at + 2;
        let mut depth: usize = 1;
        while at < self.words.len() && depth > 0
            invariant
                all == self.all(),
                start == self.at() + 2,
                start <= at <= self.words@.len(),
                depth <= at,
                group_end(all, start, 1) == group_end(all, at as int, depth as nat),
            decreases self.words@.len() - at,
        {
            let word = self.words[at].as_str();
            if text::same(word, "(") {
                depth = depth + 1;
            } else if text::same(word, ")") {
                depth = depth - 1;
            }
            at = at + 1;
        }
        at < self.words.len() && text::same(self.words[at].as_str(), "->")
    }

    fn ctor(&mut self) -> (read: Result<Constructor, String>)
        requires
            old(self).wf(),
        ensures
            final(self).wf(),
            final(self).all() == old(self).all(),
            match read {
                Ok(ctor) => ctor_at(old(self).all(), old(self).at()) == Ok::<_, Seq<char>>(
                    (ctor@, final(self).at()),
                ) && old(self).at() < final(self).at(),
                Err(said) => ctor_at(old(self).all(), old(self).at()) == Err::<(CtorForm, int), _>(
                    said@,
                ),
            },
    {
        let name = match self.word() {
            Ok(name) => name,
            Err(said) => {
                return Err(said);
            },
        };
        if self.is(0, "(") {
            match self.names() {
                Ok(fields) => Ok(Constructor { name, fields }),
                Err(said) => Err(said),
            }
        } else {
            let fields: Vec<String> = Vec::new();
            assert(texts(fields@) =~= seq![]);
            Ok(Constructor { name, fields })
        }
    }

    /// Constructors, one after the other, up to where something else begins.
    fn ctors(&mut self) -> (read: Result<Vec<Constructor>, String>)
        requires
            old(self).wf(),
        ensures
            final(self).wf(),
            final(self).all() == old(self).all(),
            match read {
                Ok(held) => ctors_from(old(self).all(), old(self).at(), seq![]) == Ok::<
                    _,
                    Seq<char>,
                >((ctor_forms(held@), final(self).at())) && old(self).at() <= final(self).at(),
                Err(said) => ctors_from(old(self).all(), old(self).at(), seq![]) == Err::<
                    (Seq<CtorForm>, int),
                    _,
                >(said@),
            },
    {
        let ghost all = self.all();
        let ghost start = self.at();
        let mut held: Vec<Constructor> = Vec::new();
        assert(ctor_forms(held@) =~= seq![]);
        while !self.done() && !self.is(0, "type") && !self.begins_clause()
            invariant
                self.wf(),
                self.all() == all,
                start <= self.at(),
                all == old(self).all(),
                start == old(self).at(),
                ctors_from(all, start, seq![]) == ctors_from(all, self.at(), ctor_forms(held@)),
            decreases all.len() - self.at(),
        {
            let ghost before = ctor_forms(held@);
            match self.ctor() {
                Ok(ctor) => {
                    held.push(ctor);
                    assert(ctor_forms(held@) =~= before.push(ctor@));
                },
                Err(said) => {
                    return Err(said);
                },
            }
        }
        Ok(held)
    }

    /// Constructors set apart: one, then one after each bar.
    fn ctors_apart(&mut self) -> (read: Result<Vec<Constructor>, String>)
        requires
            old(self).wf(),
        ensures
            final(self).wf(),
            final(self).all() == old(self).all(),
            match read {
                Ok(held) => ctors_apart(old(self).all(), old(self).at(), seq![]) == Ok::<
                    _,
                    Seq<char>,
                >((ctor_forms(held@), final(self).at())) && old(self).at() <= final(self).at(),
                Err(said) => ctors_apart(old(self).all(), old(self).at(), seq![]) == Err::<
                    (Seq<CtorForm>, int),
                    _,
                >(said@),
            },
    {
        let ghost all = self.all();
        let ghost start = self.at();
        let mut held: Vec<Constructor> = Vec::new();
        assert(ctor_forms(held@) =~= seq![]);
        loop
            invariant
                self.wf(),
                self.all() == all,
                start <= self.at(),
                start == old(self).at(),
                all == old(self).all(),
                self::ctors_apart(all, start, seq![]) == self::ctors_apart(
                    all,
                    self.at(),
                    ctor_forms(held@),
                ),
            decreases all.len() - self.at(),
        {
            let ghost before = ctor_forms(held@);
            match self.ctor() {
                Ok(ctor) => {
                    held.push(ctor);
                    assert(ctor_forms(held@) =~= before.push(ctor@));
                },
                Err(said) => {
                    return Err(said);
                },
            }
            if !self.is(0, "|") {
                return Ok(held);
            }
            self.skip();
        }
    }

    /// A type, from its name on.
    fn declaration(&mut self) -> (read: Result<Declaration, String>)
        requires
            old(self).wf(),
        ensures
            final(self).wf(),
            final(self).all() == old(self).all(),
            match read {
                Ok(held) => type_at(old(self).all(), old(self).at()) == Ok::<_, Seq<char>>(
                    (held@, final(self).at()),
                ) && old(self).at() < final(self).at(),
                Err(said) => type_at(old(self).all(), old(self).at()) == Err::<(TypeForm, int), _>(
                    said@,
                ),
            },
    {
        let name = match self.word() {
            Ok(name) => name,
            Err(said) => {
                return Err(said);
            },
        };
        let held = if self.is(0, "=") {
            self.skip();
            self.ctors_apart()
        } else {
            self.ctors()
        };
        match held {
            Ok(ctors) => Ok(Declaration { name, ctors }),
            Err(said) => Err(said),
        }
    }

    /// A clause, from the arguments of the function it is one of on.
    fn clause(&mut self) -> (read: Result<Clause, String>)
        requires
            old(self).wf(),
        ensures
            final(self).wf(),
            final(self).all() == old(self).all(),
            match read {
                Ok(held) => clause_at(old(self).all(), old(self).at()) == Ok::<_, Seq<char>>(
                    (held@, final(self).at()),
                ) && old(self).at() < final(self).at(),
                Err(said) => clause_at(old(self).all(), old(self).at()) == Err::<
                    (ClauseForm, int),
                    _,
                >(said@),
            },
    {
        let ghost all = self.all();
        let ghost start = self.at();
        let patterns = match self.patterns() {
            Ok(patterns) => patterns,
            Err(said) => {
                return Err(said);
            },
        };
        if !self.is(0, "->") {
            return Err(self.refuse("->"));
        }
        self.skip();
        let ghost first = self.at();
        let mut steps: Vec<Step> = Vec::new();
        assert(step_forms(steps@) =~= seq![]);
        while self.is(1, "=")
            invariant
                self.wf(),
                self.all() == all,
                all == old(self).all(),
                start == old(self).at(),
                start < first <= self.at(),
                patterns_at(all, start) == Ok::<_, Seq<char>>(
                    (pattern_forms(patterns@), first - 1),
                ),
                is_at(all, first - 1, "->"@),
                steps_from(all, first, seq![]) == steps_from(all, self.at(), step_forms(steps@)),
            decreases all.len() - self.at(),
        {
            let ghost before = step_forms(steps@);
            let name = match self.word() {
                Ok(name) => name,
                Err(said) => {
                    return Err(said);
                },
            };
            self.skip();
            match self.term() {
                Ok(term) => {
                    steps.push(Step { name, term });
                    assert(step_forms(steps@) =~= before.push(
                        StepForm { name: name@, term: term@ },
                    ));
                },
                Err(said) => {
                    return Err(said);
                },
            }
        }
        match self.term() {
            Ok(body) => Ok(Clause { patterns, steps, body }),
            Err(said) => Err(said),
        }
    }
}

impl Source {
    /// One more clause of a function, which is a new one where there is none
    /// of that name.
    fn add_clause(&mut self, name: String, clause: Clause)
        ensures
            final(self)@ == old(self)@.with_clause(name@, clause@),
            old(self)@.is_written() ==> final(self)@.is_written(),
    {
        let ghost before = self@;
        let mut at: usize = 0;
        while at < self.functions.len() && !text::same(
            self.functions[at].name.as_str(),
            name.as_str(),
        )
            invariant
                self@ == before,
                at <= self.functions@.len(),
                before.function_from(name@, at as int) == before.function_from(name@, 0),
            decreases self.functions@.len() - at,
        {
            assert(before.functions[at as int].name == self.functions@[at as int].name@);
            at = at + 1;
        }
        let ghost held = self.functions@;
        if at < self.functions.len() {
            assert(before.functions[at as int].name == self.functions@[at as int].name@);
            let ghost clauses = held[at as int].clauses@;
            self.functions[at].clauses.push(clause);
            proof {
                assert(clause_forms(self.functions@[at as int].clauses@) =~= clause_forms(
                    clauses,
                ).push(clause@));
                assert(self@.functions =~= before.with_clause(name@, clause@).functions);
            }
        } else {
            let mut clauses: Vec<Clause> = Vec::new();
            clauses.push(clause);
            assert(clause_forms(clauses@) =~= seq![clause@]);
            self.functions.push(Definition { name, clauses });
            assert(self@.functions =~= before.with_clause(name@, clause@).functions);
        }
    }
}

/// Read what a program says.
pub fn read(text: &str) -> (read: Result<Source, String>)
    ensures
        match read {
            Ok(held) => source(text@) == Ok::<_, Seq<char>>(held@) && held@.is_written(),
            Err(said) => source(text@) == Err::<SourceForm, _>(said@),
        },
{
    let mut words = Words::new(text);
    let ghost all = words.all();
    let mut held = Source { types: Vec::new(), functions: Vec::new() };
    assert(held@ =~= SourceForm::nothing());
    while !words.done()
        invariant
            words.wf(),
            words.all() == all,
            all == self::words(text@),
            held@.is_written(),
            source(text@) == source_from(all, words.at(), held@),
        decreases all.len() - words.at(),
    {
        let ghost before = held@;
        if words.is(0, "type") {
            words.skip();
            match words.declaration() {
                Ok(declared) => {
                    held.types.push(declared);
                    assert(held@ =~= before.with_type(declared@));
                },
                Err(said) => {
                    return Err(said);
                },
            }
        } else {
            let name = match words.word() {
                Ok(name) => name,
                Err(said) => {
                    return Err(said);
                },
            };
            match words.clause() {
                Ok(clause) => held.add_clause(name, clause),
                Err(said) => {
                    return Err(said);
                },
            }
        }
    }
    Ok(held)
}

} // verus!
