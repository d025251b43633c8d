//! The pools a tier keeps its program in: runs of them, and the names a
//! program uses.

use vstd::prelude::*;
use vstd::slice::slice_subrange;

verus! {

/// A run in one of a program's pools: the values an argument list holds,
/// a region's parameters, the classes a signature names, the characters of
/// a name.
#[derive(Clone, Copy, Debug, PartialEq, Eq, Structural)]
pub struct Range {
    pub start: u32,
    pub len: u32,
}

impl Default for Range {
    fn default() -> (range: Self)
        ensures
            range == (Range { start: 0, len: 0 }),
    {
        Range { start: 0, len: 0 }
    }
}

impl Range {
    /// A run of `count` entries from `at` on.
    pub open spec fn from(at: nat, count: nat) -> Range {
        Range { start: at as u32, len: count as u32 }
    }

    /// Whether the run lies inside a pool of `pool` entries.
    pub open spec fn within(self, pool: nat) -> bool {
        self.start + self.len <= pool
    }

    /// The entries of `pool` that the run names.
    pub open spec fn read<T>(self, pool: Seq<T>) -> Seq<T> {
        pool.subrange(self.start as int, self.start + self.len)
    }

    pub fn len(self) -> (len: usize)
        ensures
            len == self.len,
    {
        self.len as usize
    }

    pub fn is_empty(self) -> (empty: bool)
        ensures
            empty == (self.len == 0),
    {
        self.len == 0
    }

    /// A run in a pool of the four billion entries one may hold.
    pub fn of(start: usize, len: usize) -> (range: Self)
        requires
            start <= u32::MAX,
            len <= u32::MAX,
        ensures
            range == Range::from(start as nat, len as nat),
    {
        Range { start: start as u32, len: len as u32 }
    }

    /// The entries of `pool` that the run names.
    pub fn slice<T>(self, pool: &Vec<T>) -> (entries: &[T])
        requires
            self.within(pool@.len()),
        ensures
            entries@ == self.read(pool@),
    {
        let start: usize = self.start as usize;
        assert(self.within(pool.len() as nat));
        slice_subrange(pool.as_slice(), start, start + self.len as usize)
    }
}

/// Put `more` at the end of a pool.
pub fn append<T: Copy>(pool: &mut Vec<T>, more: &[T])
    ensures
        final(pool)@ == old(pool)@ + more@,
{
    let mut at: usize = 0;
    let ghost before = pool@;
    while at < more.len()
        invariant
            at <= more.len(),
            pool@ == before + more@.take(at as int),
        decreases more.len() - at,
    {
        pool.push(more[at]);
        at = at + 1;
        assert(pool@ =~= before + more@.take(at as int));
    }
    assert(more@.take(at as int) =~= more@);
}

/// What is said of a program too large to hold.
pub open spec fn too_large() -> Seq<char> {
    "the program outgrew the pools it may have"@
}

pub(crate) fn outgrown() -> (said: String)
    ensures
        said@ == too_large(),
{
    "the program outgrew the pools it may have".to_owned()
}

/// What a [`Names`] holds.
#[verifier::ext_equal]
pub struct NameTable {
    /// Every name, each once, end to end.
    pub text: Seq<u8>,
    /// Where each of them is, by symbol.
    pub symbols: Seq<Range>,
}

impl NameTable {
    pub open spec fn empty() -> NameTable {
        NameTable { text: seq![], symbols: seq![] }
    }

    pub open spec fn len(self) -> nat {
        self.symbols.len()
    }

    /// The text of a name, in UTF-8.
    pub open spec fn bytes(self, symbol: int) -> Seq<u8> {
        self.symbols[symbol].read(self.text)
    }

    pub open spec fn name(self, symbol: int) -> Seq<char> {
        vstd::utf8::decode_utf8(self.bytes(symbol))
    }

    /// Every symbol stands for a name, and for one of its own; there is
    /// nothing between the names that is not text.
    pub open spec fn fits(self) -> bool {
        &&& vstd::utf8::valid_utf8(self.text)
        &&& forall|s: int|
            0 <= s < self.symbols.len() ==> (#[trigger] self.symbols[s]).within(self.text.len())
        &&& forall|s: int|
            0 <= s < self.symbols.len() ==> vstd::utf8::valid_utf8(
                (#[trigger] self.symbols[s]).read(self.text),
            )
        &&& forall|s: int, t: int|
            0 <= s < t < self.symbols.len() ==> (#[trigger] self.symbols[s]).read(self.text) != (
            #[trigger] self.symbols[t]).read(self.text)
    }

    /// Whether a name of `count` bytes more fits.
    pub open spec fn room(self, count: nat) -> bool {
        self.text.len() + count <= u32::MAX && self.symbols.len() + count <= u32::MAX
    }

    /// The first symbol from `from` on that stands for a name.
    pub open spec fn symbol_from(self, name: Seq<u8>, from: int) -> int
        decreases self.symbols.len() - from,
    {
        if from >= self.symbols.len() || self.bytes(from) == name {
            from
        } else {
            self.symbol_from(name, from + 1)
        }
    }

    /// The symbol for a name: the one that stands for it already, or the next.
    pub open spec fn symbol(self, name: Seq<char>) -> int {
        self.symbol_from(vstd::utf8::encode_utf8(name), 0)
    }

    /// With a symbol for `name`, which is added where there is none.
    pub open spec fn with(self, name: Seq<char>) -> NameTable {
        let text = vstd::utf8::encode_utf8(name);
        if self.symbol(name) < self.symbols.len() {
            self
        } else {
            NameTable {
                text: self.text + text,
                symbols: self.symbols.push(Range::from(self.text.len(), text.len())),
            }
        }
    }
}

proof fn first_symbol(table: NameTable, name: Seq<u8>, from: int)
    requires
        0 <= from <= table.symbols.len(),
    ensures
        from <= table.symbol_from(name, from) <= table.symbols.len(),
        forall|s: int|
            from <= s < table.symbol_from(name, from) ==> (#[trigger] table.symbols[s]).read(
                table.text,
            ) != name,
        table.symbol_from(name, from) < table.symbols.len() ==> table.bytes(
            table.symbol_from(name, from),
        ) == name,
    decreases table.symbols.len() - from,
{
    if !(from >= table.symbols.len() || table.bytes(from) == name) {
        first_symbol(table, name, from + 1);
    }
}

/// Naming something keeps every name that was there, under the symbol it
/// had, and the symbol answered stands for the name asked for.
pub proof fn naming_keeps_names(table: NameTable, name: Seq<char>)
    requires
        table.fits(),
        table.room(vstd::utf8::encode_utf8(name).len() + 1),
    ensures
        table.with(name).fits(),
        0 <= table.symbol(name) < table.with(name).symbols.len(),
        table.with(name).bytes(table.symbol(name)) == vstd::utf8::encode_utf8(name),
        table.with(name).name(table.symbol(name)) == name,
        table.symbols.is_prefix_of(table.with(name).symbols),
        forall|s: int|
            0 <= s < table.symbols.len() ==> #[trigger] table.with(name).bytes(s) == table.bytes(s),
{
    let text = vstd::utf8::encode_utf8(name);
    let new = table.with(name);
    first_symbol(table, text, 0);
    vstd::utf8::encode_utf8_decode_utf8(name);
    if table.symbol(name) >= table.symbols.len() {
        vstd::utf8::encode_utf8_valid_utf8(name);
        vstd::utf8::valid_utf8_concat(table.text, text);
        let range = Range::from(table.text.len(), text.len());
        assert(range.read(new.text) =~= text);
        assert forall|s: int| 0 <= s < table.symbols.len() implies (
        #[trigger] table.symbols[s]).read(new.text) == table.symbols[s].read(table.text) by {
            assert(table.symbols[s].within(table.text.len()));
            assert(table.symbols[s].read(new.text) =~= table.symbols[s].read(table.text));
        }
        assert forall|s: int| 0 <= s < new.symbols.len() implies (
        #[trigger] new.symbols[s]).within(new.text.len()) && vstd::utf8::valid_utf8(
            new.symbols[s].read(new.text),
        ) by {
            if s < table.symbols.len() {
                assert(new.symbols[s] == table.symbols[s]);
            }
        }
        assert forall|s: int, t: int| 0 <= s < t < new.symbols.len() implies (
        #[trigger] new.symbols[s]).read(new.text) != (#[trigger] new.symbols[t]).read(
            new.text,
        ) by {
            assert(new.symbols[s] == table.symbols[s]);
            if t < table.symbols.len() {
                assert(new.symbols[t] == table.symbols[t]);
            }
        }
        assert forall|s: int| 0 <= s < table.symbols.len() implies #[trigger] new.bytes(s)
            == table.bytes(s) by {
            assert(new.symbols[s] == table.symbols[s]);
            assert(table.symbols[s].read(new.text) == table.symbols[s].read(table.text));
        }
    }
}

/// A name has the same symbol every time: asking again finds it and adds
/// nothing.
pub proof fn a_name_keeps_its_symbol(table: NameTable, name: Seq<char>)
    requires
        table.fits(),
        table.room(vstd::utf8::encode_utf8(name).len() + 1),
    ensures
        table.with(name).symbol(name) == table.symbol(name),
        table.with(name).with(name) == table.with(name),
{
    let text = vstd::utf8::encode_utf8(name);
    let new = table.with(name);
    naming_keeps_names(table, name);
    first_symbol(table, text, 0);
    first_symbol(new, text, 0);
    let found = new.symbol(name);
    let held = table.symbol(name);
    if found < held {
        assert(new.bytes(found) == table.bytes(found));
    }
    if held < found {
        assert(new.symbols[held].read(new.text) == text);
    }
}

/// Two names have one symbol only where they are one name.
pub proof fn names_have_symbols_of_their_own(table: NameTable, left: int, right: int)
    requires
        table.fits(),
        0 <= left < table.symbols.len(),
        0 <= right < table.symbols.len(),
    ensures
        table.name(left) == table.name(right) <==> left == right,
{
    vstd::utf8::decode_utf8_encode_utf8(table.bytes(left));
    vstd::utf8::decode_utf8_encode_utf8(table.bytes(right));
    if left < right {
        assert(table.symbols[left].read(table.text) != table.symbols[right].read(table.text));
    } else if right < left {
        assert(table.symbols[right].read(table.text) != table.symbols[left].read(table.text));
    }
}

impl NameTable {
    /// Whether every name of another is here, under the symbol it has there.
    pub open spec fn holds(self, old: NameTable) -> bool {
        &&& old.symbols.len() <= self.symbols.len()
        &&& forall|s: int| 0 <= s < old.symbols.len() ==> #[trigger] self.bytes(s) == old.bytes(s)
    }
}

/// Tables that hold all that was named before go on doing so.
pub proof fn holding_names_chains(first: NameTable, second: NameTable, third: NameTable)
    requires
        second.holds(first),
        third.holds(second),
    ensures
        third.holds(first),
{
    assert forall|s: int| 0 <= s < first.symbols.len() implies #[trigger] third.bytes(s)
        == first.bytes(s) by {
        assert(second.bytes(s) == first.bytes(s));
    }
}

/// The symbol of a name goes on standing for it, and for nothing else.
pub proof fn a_symbol_stands_for_one_name(
    table: NameTable,
    name: Seq<char>,
    later: NameTable,
    other: Seq<char>,
)
    requires
        table.fits(),
        table.room(vstd::utf8::encode_utf8(name).len() + 1),
        later.holds(table.with(name)),
        later.fits(),
        later.room(vstd::utf8::encode_utf8(other).len() + 1),
    ensures
        later.name(table.symbol(name)) == name,
        table.symbol(name) == later.symbol(other) <==> name == other,
        name == other ==> later.with(other) == later,
{
    let symbol = table.symbol(name);
    naming_keeps_names(table, name);
    naming_keeps_names(later, other);
    assert(later.bytes(symbol) == table.with(name).bytes(symbol));
    first_symbol(later, vstd::utf8::encode_utf8(other), 0);
    if name == other {
        let found = later.symbol(other);
        if found < symbol {
            assert(later.symbols[found].read(later.text) != later.symbols[symbol].read(later.text));
        }
        if symbol < found {
            assert(later.symbols[symbol].read(later.text) != vstd::utf8::encode_utf8(other));
        }
    } else if symbol == later.symbol(other) {
        assert(later.with(other) == later);
        assert(later.name(symbol) == other);
    }
}

/// The names a program uses.
#[derive(Clone, Debug, PartialEq, Eq)]
pub struct Names {
    text: Vec<u8>,
    symbols: Vec<Range>,
}

impl View for Names {
    type V = NameTable;

    closed spec fn view(&self) -> NameTable {
        NameTable { text: self.text@, symbols: self.symbols@ }
    }
}

impl Names {
    pub fn new() -> (names: Self)
        ensures
            names@ == NameTable::empty(),
            names@.fits(),
    {
        let names = Names { text: Vec::new(), symbols: Vec::new() };
        assert(names@ =~= NameTable::empty());
        names
    }

    pub fn len(&self) -> (len: usize)
        ensures
            len == self@.len(),
    {
        self.symbols.len()
    }

    /// Whether a name of `count` bytes more fits.
    pub fn has_room(&self, count: usize) -> (room: bool)
        ensures
            room == self@.room(count as nat),
    {
        let most: usize = u32::MAX as usize;
        count <= most && self.text.len() <= most - count && self.symbols.len() <= most - count
    }

    /// The name a symbol stands for.
    pub fn name(&self, symbol: usize) -> (name: &str)
        requires
            self@.fits(),
            symbol < self@.len(),
        ensures
            name@ == self@.name(symbol as int),
            vstd::utf8::encode_utf8(name@) == self@.bytes(symbol as int),
    {
        let at = self.symbols[symbol];
        assert(at == self@.symbols[symbol as int]);
        crate::text::decoded(at.slice(&self.text))
    }

    /// Every name there is, end to end.
    pub fn text(&self) -> (text: &str)
        requires
            self@.fits(),
        ensures
            text@ == vstd::utf8::decode_utf8(self@.text),
    {
        crate::text::decoded(self.text.as_slice())
    }

    /// The symbol for `name`, the same symbol every time.
    pub fn symbol(&mut self, name: &str) -> (symbol: usize)
        requires
            old(self)@.fits(),
            old(self)@.room(vstd::utf8::encode_utf8(name@).len() + 1),
        ensures
            final(self)@ == old(self)@.with(name@),
            final(self)@.fits(),
            symbol == old(self)@.symbol(name@),
            symbol < final(self)@.len() <= u32::MAX,
            final(self)@.name(symbol as int) == name@,
    {
        let text = name.as_bytes();
        proof {
            naming_keeps_names(self@, name@);
        }
        let ghost table = self@;
        let mut at: usize = 0;
        while at < self.symbols.len()
            invariant
                self@ == table,
                table.fits(),
                text@ == vstd::utf8::encode_utf8(name@),
                at <= table.symbols.len() <= u32::MAX,
                table.symbol(name@) == table.symbol_from(text@, at as int),
                table.with(name@).name(table.symbol(name@)) == name@,
            decreases table.symbols.len() - at,
        {
            assert(table.symbols[at as int].within(table.text.len()));
            if crate::text::same_bytes(self.symbols[at].slice(&self.text), text) {
                return at;
            }
            at = at + 1;
        }
        let start: usize = self.text.len();
        append(&mut self.text, text);
        self.symbols.push(Range::of(start, text.len()));
        assert(self@ =~= table.with(name@));
        self.symbols.len() - 1
    }
}

} // verus!
