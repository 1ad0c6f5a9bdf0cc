//! The path interner: stable small integers for path components.
//!
//! Components are raw byte strings. A symbol is the position at which its
//! byte string was first interned, so symbols are handed out in increasing
//! order and never change their meaning.

use intaglio::bytes::SymbolTable;
use intaglio::Symbol;
use intaglio::SymbolOverflowError;
use vstd::prelude::*;

verus! {

/// `intaglio::bytes::SymbolTable`: the table of interned byte strings. What
/// it holds is known only through [`interned`].
#[verifier::external_type_specification]
#[verifier::external_body]
#[verifier::reject_recursive_types(S)]
pub struct ExSymbolTable<S>(SymbolTable<S>);

/// `intaglio::SymbolOverflowError`: the error of a table that has no symbol
/// left.
#[verifier::external_type_specification]
#[verifier::external_body]
pub struct ExSymbolOverflowError(SymbolOverflowError);

/// The byte strings that a symbol table holds, in the order in which they were
/// interned: symbol `i` stands for `interned(table)[i]`.
pub uninterp spec fn interned(table: SymbolTable) -> Seq<Seq<u8>>;

/// `intaglio::bytes::SymbolTable::new`: a fresh table holds nothing.
#[verifier::external_body]
fn table_new() -> (table: SymbolTable)
    ensures
        interned(table) =~= Seq::<Seq<u8>>::empty(),
{
    SymbolTable::new()
}

/// `intaglio::bytes::SymbolTable::len`: the number of byte strings held.
#[verifier::external_body]
fn table_len(table: &SymbolTable) -> (n: usize)
    ensures
        n == interned(*table).len(),
{
    table.len()
}

/// `intaglio::bytes::SymbolTable::get`: the byte string at the symbol's
/// position, and nothing for a symbol that was never handed out.
#[verifier::external_body]
fn table_get<'a>(table: &'a SymbolTable, sym: u32) -> (out: Option<&'a [u8]>)
    ensures
        match out {
            Some(bytes) => sym < interned(*table).len() && bytes@ == interned(*table)[sym as int],
            None => sym >= interned(*table).len(),
        },
{
    table.get(Symbol::new(sym))
}

/// `intaglio::bytes::SymbolTable::check_interned`: the symbol of a byte string
/// that the table holds, and nothing for one it does not hold. The table is
/// not changed.
#[verifier::external_body]
fn table_check_interned(table: &SymbolTable, contents: &[u8]) -> (out: Option<u32>)
    ensures
        match out {
            Some(sym) => sym < interned(*table).len() && interned(*table)[sym as int]
                == contents@,
            None => !interned(*table).contains(contents@),
        },
{
    match table.check_interned(contents) {
        Some(sym) => Some(sym.id()),
        None => None,
    }
}

/// `intaglio::bytes::SymbolTable::intern`: a byte string that the table holds
/// keeps its symbol and the table stays as it is; a new one is appended and
/// gets the next position. The call fails, leaving the table as it is, only
/// when a new byte string would get a position beyond `u32::MAX`.
#[verifier::external_body]
fn table_intern(table: &mut SymbolTable, contents: Vec<u8>) -> (out: Result<
    u32,
    SymbolOverflowError,
>)
    ensures
        match out {
            Ok(sym) => {
                &&& sym < interned(*final(table)).len()
                &&& interned(*final(table))[sym as int] == contents@
                &&& if interned(*old(table)).contains(contents@) {
                    interned(*final(table)) == interned(*old(table))
                } else {
                    &&& interned(*final(table)) == interned(*old(table)).push(contents@)
                    &&& sym == interned(*old(table)).len()
                }
            },
            Err(_) => {
                &&& !interned(*old(table)).contains(contents@)
                &&& interned(*old(table)).len() > u32::MAX
                &&& interned(*final(table)) == interned(*old(table))
            },
        },
{
    match table.intern(contents) {
        Ok(sym) => Ok(sym.id()),
        Err(e) => Err(e),
    }
}

/// Interns raw path components and resolves symbols back to them.
pub struct PathInterner {
    table: SymbolTable,
}

impl PathInterner {
    /// The interned byte strings; symbol `i` stands for `names()[i]`.
    pub closed spec fn names(&self) -> Seq<Seq<u8>> {
        interned(self.table)
    }

    /// No byte string is held twice, so every byte string has at most one
    /// symbol, and every position fits a symbol.
    pub open spec fn wf(&self) -> bool {
        &&& self.names().no_duplicates()
        &&& self.names().len() <= u32::MAX + 1
    }

    /// Whether `sym` was handed out by this interner.
    pub open spec fn knows(&self, sym: u32) -> bool {
        (sym as int) < self.names().len()
    }

    /// Whether interning `bytes` can succeed: it is held already, or the next
    /// position still fits a symbol.
    pub open spec fn has_room_for(&self, bytes: Seq<u8>) -> bool {
        self.names().contains(bytes) || self.names().len() <= u32::MAX
    }

    /// An interner that holds nothing.
    pub fn new() -> (out: PathInterner)
        ensures
            out.wf(),
            out.names() =~= Seq::<Seq<u8>>::empty(),
    {
        PathInterner { table: table_new() }
    }

    /// The number of byte strings held.
    pub fn len(&self) -> (n: usize)
        ensures
            n == self.names().len(),
    {
        table_len(&self.table)
    }

    /// Whether a byte string that is not held yet can still be interned.
    pub fn has_room(&self) -> (out: bool)
        ensures
            out == (self.names().len() <= u32::MAX),
    {
        table_len(&self.table) <= 0xffff_ffff
    }

    /// The byte string that `sym` stands for, if `sym` was handed out.
    pub fn get(&self, sym: u32) -> (out: Option<&[u8]>)
        ensures
            out is Some == self.knows(sym),
            out matches Some(bytes) ==> bytes@ == self.names()[sym as int],
    {
        table_get(&self.table, sym)
    }

    /// The symbol of `bytes` if it has been interned, without interning it.
    pub fn check_interned(&self, bytes: &[u8]) -> (out: Option<u32>)
        ensures
            out is Some == self.names().contains(bytes@),
            out matches Some(sym) ==> self.knows(sym) && self.names()[sym as int] == bytes@,
    {
        table_check_interned(&self.table, bytes)
    }

    /// Interns `bytes`. A byte string that is held keeps its symbol; a new one
    /// gets the next symbol. Nothing is returned, and nothing changes, only
    /// when the symbols are used up.
    pub fn intern(&mut self, bytes: Vec<u8>) -> (out: Option<u32>)
        requires
            old(self).wf(),
        ensures
            final(self).wf(),
            out is Some == old(self).has_room_for(bytes@),
            out is None ==> final(self).names() == old(self).names(),
            out matches Some(sym) ==> {
                &&& final(self).knows(sym)
                &&& final(self).names()[sym as int] == bytes@
                &&& final(self).names() == if old(self).names().contains(bytes@) {
                    old(self).names()
                } else {
                    old(self).names().push(bytes@)
                }
            },
    {
        let ghost before = self.names();
        match table_intern(&mut self.table, bytes) {
            Ok(sym) => {
                proof {
                    if !before.contains(bytes@) {
                        lemma_push_keeps_distinct(before, bytes@);
                    }
                }
                Some(sym)
            },
            Err(_) => None,
        }
    }
}

/// Appending an element that a duplicate-free sequence lacks keeps it
/// duplicate-free.
pub proof fn lemma_push_keeps_distinct<A>(s: Seq<A>, a: A)
    requires
        s.no_duplicates(),
        !s.contains(a),
    ensures
        s.push(a).no_duplicates(),
{
    let t = s.push(a);
    assert forall|i: int, j: int| 0 <= i < t.len() && 0 <= j < t.len() && i != j implies t[i]
        != t[j] by {
        if i < s.len() && j < s.len() {
        } else if i < s.len() {
            assert(s.contains(s[i]));
        } else {
            assert(s.contains(s[j]));
        }
    }
}

} // verus!
