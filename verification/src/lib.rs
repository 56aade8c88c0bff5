//! A small card-loaded accumulator machine.
//!
//! The crate has two halves: a two-pass assembler that translates a mnemonic
//! source language into a packed binary object format, and a CPU that executes
//! that format out of a fixed 4096-byte memory.  Both halves are pure: they
//! take source lines, loader images and input bytes as plain values and hand
//! back object bytes, output bytes or a typed error.

use vstd::prelude::*;
use vstd::string::*;

pub mod assembler;
pub mod cpu;

pub use crate::assembler::Assembler;
pub use crate::cpu::CPU;
pub use crate::cpu::Config;
pub use crate::cpu::CpuError;

verus! {

/// An association list read as a map; the first entry for a key wins, as it
/// does for a scan that stops at the first match.
pub open spec fn assoc_map(entries: Seq<(Seq<char>, u16)>) -> Map<Seq<char>, u16>
    decreases entries.len(),
{
    if entries.len() == 0 {
        Map::<Seq<char>, u16>::empty()
    } else {
        assoc_map(entries.drop_first()).insert(entries.first().0, entries.first().1)
    }
}

/// A key that appears nowhere in the entries is not in the map.
pub proof fn lemma_assoc_map_absent(entries: Seq<(Seq<char>, u16)>, key: Seq<char>)
    requires
        forall|i: int| 0 <= i < entries.len() ==> (#[trigger] entries[i]).0 != key,
    ensures
        !assoc_map(entries).contains_key(key),
    decreases entries.len(),
{
    if entries.len() > 0 {
        assert(entries.first() == entries[0]);
        assert(forall|i: int|
            0 <= i < entries.drop_first().len() ==> (#[trigger] entries.drop_first()[i]).0
                != key);
        lemma_assoc_map_absent(entries.drop_first(), key);
    }
}

/// An entry whose key appears in the entries puts the key into the map.
pub proof fn lemma_assoc_map_contains(entries: Seq<(Seq<char>, u16)>, i: int)
    requires
        0 <= i < entries.len(),
    ensures
        assoc_map(entries).contains_key(entries[i].0),
    decreases entries.len(),
{
    if i > 0 {
        lemma_assoc_map_contains(entries.drop_first(), i - 1);
        assert(entries.drop_first()[i - 1] == entries[i]);
    }
}

/// The first entry for a key gives the key's value.
pub proof fn lemma_assoc_map_first_match(entries: Seq<(Seq<char>, u16)>, i: int)
    requires
        0 <= i < entries.len(),
        forall|j: int| 0 <= j < i ==> (#[trigger] entries[j]).0 != entries[i].0,
    ensures
        assoc_map(entries).contains_key(entries[i].0),
        assoc_map(entries)[entries[i].0] == entries[i].1,
    decreases entries.len(),
{
    if i > 0 {
        assert(forall|j: int|
            0 <= j < i - 1 ==> (#[trigger] entries.drop_first()[j]).0 == entries[j + 1].0);
        lemma_assoc_map_first_match(entries.drop_first(), i - 1);
        assert(entries.drop_first()[i - 1] == entries[i]);
        assert(entries.first().0 != entries[i].0);
    }
}

/// Appending an entry with a fresh key extends the map by that binding.
pub proof fn lemma_assoc_map_push_fresh(entries: Seq<(Seq<char>, u16)>, key: Seq<char>, val: u16)
    requires
        forall|i: int| 0 <= i < entries.len() ==> (#[trigger] entries[i]).0 != key,
    ensures
        assoc_map(entries.push((key, val))) == assoc_map(entries).insert(key, val),
    decreases entries.len(),
{
    if entries.len() == 0 {
        assert(entries.push((key, val)).drop_first() =~= entries);
        assert(assoc_map(entries.push((key, val))) =~= assoc_map(entries).insert(key, val));
    } else {
        assert(entries.push((key, val)).drop_first() =~= entries.drop_first().push((key, val)));
        assert(forall|i: int|
            0 <= i < entries.drop_first().len() ==> (#[trigger] entries.drop_first()[i]).0
                != key);
        lemma_assoc_map_push_fresh(entries.drop_first(), key, val);
        assert(entries.first().0 != key);
        assert(assoc_map(entries.push((key, val))) =~= assoc_map(entries).insert(key, val));
    }
}

/// The view of the table entries, key strings taken as character sequences.
pub open spec fn entries_view(entries: Seq<(String, u16)>) -> Seq<(Seq<char>, u16)> {
    entries.map_values(|p: (String, u16)| (p.0@, p.1))
}

/// A fatal assembly error.  Any of these aborts the run; no object bytes
/// are produced.
#[derive(Debug, Clone, PartialEq, Eq)]
pub enum AsmError {
    /// A statement with more than three tokens, or a malformed literal where
    /// a number was required.
    Syntax,
    /// A label bound twice; carries the offending label.
    DuplicateSymbol(String),
    /// An argument that is neither a bound symbol nor a literal; carries the
    /// offending token.
    UnresolvedSymbol(String),
    /// No complete basic block: the source needs at least one block opened by
    /// a `@ <address>` directive and closed by a final `# <label>` directive.
    MissingBlock,
    /// A resolved value does not fit the field it is emitted into.
    Range,
}

/// The mathematical shape of an assembly error, labels as character
/// sequences.
pub ghost enum AsmErrorSpec {
    Syntax,
    DuplicateSymbol(Seq<char>),
    UnresolvedSymbol(Seq<char>),
    MissingBlock,
    Range,
}

impl View for AsmError {
    type V = AsmErrorSpec;

    open spec fn view(&self) -> AsmErrorSpec {
        match self {
            AsmError::Syntax => AsmErrorSpec::Syntax,
            AsmError::DuplicateSymbol(s) => AsmErrorSpec::DuplicateSymbol(s@),
            AsmError::UnresolvedSymbol(s) => AsmErrorSpec::UnresolvedSymbol(s@),
            AsmError::MissingBlock => AsmErrorSpec::MissingBlock,
            AsmError::Range => AsmErrorSpec::Range,
        }
    }
}

/// The assembler's symbol table: mnemonic names, directive names and user
/// labels, each bound to a 16-bit opcode or address.  Keys are unique;
/// binding a key twice is the caller's error and is reported, never
/// silently overwritten.
pub struct Symbols {
    table: Vec<(String, u16)>,
}

impl View for Symbols {
    type V = Map<Seq<char>, u16>;

    closed spec fn view(&self) -> Map<Seq<char>, u16> {
        assoc_map(entries_view(self.table@))
    }
}

/// The pre-seeded entries of a fresh symbol table: the sixteen opcode
/// mnemonics and the three directive keys `@`, `#` and `K`.
pub open spec fn initial_symbol_entries() -> Seq<(Seq<char>, u16)> {
    seq![
        ("JP"@, 0u16),
        ("JZ"@, 1u16),
        ("JN"@, 2u16),
        ("LV"@, 3u16),
        ("+"@, 4u16),
        ("-"@, 5u16),
        ("*"@, 6u16),
        ("/"@, 7u16),
        ("LD"@, 8u16),
        ("MM"@, 9u16),
        ("SC"@, 10u16),
        ("RS"@, 11u16),
        ("HM"@, 12u16),
        ("GD"@, 13u16),
        ("PD"@, 14u16),
        ("OS"@, 15u16),
        ("@"@, 16u16),
        ("#"@, 17u16),
        ("K"@, 18u16),
    ]
}

/// The map a fresh symbol table holds.
pub open spec fn initial_symbols() -> Map<Seq<char>, u16> {
    assoc_map(initial_symbol_entries())
}

impl Symbols {
    /// A fresh table holding exactly the pre-seeded opcode and directive
    /// entries.
    pub fn new() -> (r: Symbols)
        ensures
            r@ == initial_symbols(),
    {
        let mut table: Vec<(String, u16)> = Vec::new();
        table.push((String::from_str("JP"), 0));
        table.push((String::from_str("JZ"), 1));
        table.push((String::from_str("JN"), 2));
        table.push((String::from_str("LV"), 3));
        table.push((String::from_str("+"), 4));
        table.push((String::from_str("-"), 5));
        table.push((String::from_str("*"), 6));
        table.push((String::from_str("/"), 7));
        table.push((String::from_str("LD"), 8));
        table.push((String::from_str("MM"), 9));
        table.push((String::from_str("SC"), 10));
        table.push((String::from_str("RS"), 11));
        table.push((String::from_str("HM"), 12));
        table.push((String::from_str("GD"), 13));
        table.push((String::from_str("PD"), 14));
        table.push((String::from_str("OS"), 15));
        table.push((String::from_str("@"), 16));
        table.push((String::from_str("#"), 17));
        table.push((String::from_str("K"), 18));
        proof {
            assert(entries_view(table@) =~= initial_symbol_entries());
        }
        Symbols { table }
    }

    /// Binds `key` to `val`.  A key already bound stays as it was and the
    /// duplicate is reported: assembly cannot proceed with ambiguous labels.
    pub fn insert(&mut self, key: &str, val: u16) -> (r: Result<(), AsmError>)
        ensures
            match r {
                Ok(()) => !old(self)@.contains_key(key@) && final(self)@ == old(self)@.insert(
                    key@,
                    val,
                ),
                Err(e) => old(self)@.contains_key(key@) && *final(self) == *old(self) && e@
                    == AsmErrorSpec::DuplicateSymbol(key@),
            },
    {
        match self.lookup(key) {
            Some(_) => Err(AsmError::DuplicateSymbol(key.to_owned())),
            None => {
                let ghost entries = entries_view(self.table@);
                proof {
                    assert forall|i: int| 0 <= i < entries.len() implies (#[trigger] entries[i]).0
                        != key@ by {
                        if entries[i].0 == key@ {
                            lemma_assoc_map_contains(entries, i);
                        }
                    }
                    lemma_assoc_map_push_fresh(entries, key@, val);
                }
                self.table.push((key.to_owned(), val));
                proof {
                    assert(entries_view(self.table@) =~= entries.push((key@, val)));
                }
                Ok(())
            },
        }
    }

    /// The value bound to a key that is known to be present.
    pub fn get(&self, key: &str) -> (r: u16)
        requires
            self@.contains_key(key@),
        ensures
            r == self@[key@],
    {
        match self.lookup(key) {
            Some(v) => v,
            None => {
                proof {
                    assert(false);
                }
                0
            },
        }
    }

    /// Looks a key up, `None` when it is not bound.
    pub fn lookup(&self, key: &str) -> (r: Option<u16>)
        ensures
            match r {
                Some(v) => self@.contains_key(key@) && self@[key@] == v,
                None => !self@.contains_key(key@),
            },
    {
        let ghost entries = entries_view(self.table@);
        let key_owned = key.to_owned();
        let mut i: usize = 0;
        while i < self.table.len()
            invariant
                i <= self.table@.len(),
                key_owned@ == key@,
                entries == entries_view(self.table@),
                forall|j: int| 0 <= j < i ==> (#[trigger] entries[j]).0 != key@,
            decreases self.table@.len() - i,
        {
            if self.table[i].0.eq(&key_owned) {
                proof {
                    lemma_assoc_map_first_match(entries, i as int);
                }
                return Some(self.table[i].1);
            }
            i += 1;
        }
        proof {
            lemma_assoc_map_absent(entries, key@);
        }
        None
    }
}

/// The lower-case mnemonic spellings, each with its 4-bit opcode.
pub open spec fn mnemonic_entries() -> Seq<(Seq<char>, u16)> {
    seq![
        ("jp"@, 0u16),
        ("jz"@, 1u16),
        ("jn"@, 2u16),
        ("lv"@, 3u16),
        ("+"@, 4u16),
        ("-"@, 5u16),
        ("*"@, 6u16),
        ("/"@, 7u16),
        ("ld"@, 8u16),
        ("mm"@, 9u16),
        ("sc"@, 10u16),
        ("rs"@, 11u16),
        ("hm"@, 12u16),
        ("gd"@, 13u16),
        ("pd"@, 14u16),
        ("os"@, 15u16),
    ]
}

/// The inverse table: each opcode with its lower-case spelling.
pub open spec fn code_entries() -> Seq<(u8, Seq<char>)> {
    seq![
        (0u8, "jp"@),
        (1u8, "jz"@),
        (2u8, "jn"@),
        (3u8, "lv"@),
        (4u8, "+"@),
        (5u8, "-"@),
        (6u8, "*"@),
        (7u8, "/"@),
        (8u8, "ld"@),
        (9u8, "mm"@),
        (10u8, "sc"@),
        (11u8, "rs"@),
        (12u8, "hm"@),
        (13u8, "gd"@),
        (14u8, "pd"@),
        (15u8, "os"@),
    ]
}

/// The mnemonic tables of the machine: name to opcode, and opcode back to
/// name (for listings and diagnostics).
pub struct Mnemonics {
    pub from_mnemonic: Vec<(String, u16)>,
    pub from_code: Vec<(u8, String)>,
}

impl Mnemonics {
    /// Fresh tables holding exactly the sixteen opcodes.
    pub fn new() -> (r: Mnemonics)
        ensures
            r.from_mnemonic.deep_view() == mnemonic_entries(),
            r.from_code.deep_view() == code_entries(),
    {
        let mut from_mnemonic: Vec<(String, u16)> = Vec::new();
        from_mnemonic.push((String::from_str("jp"), 0));
        from_mnemonic.push((String::from_str("jz"), 1));
        from_mnemonic.push((String::from_str("jn"), 2));
        from_mnemonic.push((String::from_str("lv"), 3));
        from_mnemonic.push((String::from_str("+"), 4));
        from_mnemonic.push((String::from_str("-"), 5));
        from_mnemonic.push((String::from_str("*"), 6));
        from_mnemonic.push((String::from_str("/"), 7));
        from_mnemonic.push((String::from_str("ld"), 8));
        from_mnemonic.push((String::from_str("mm"), 9));
        from_mnemonic.push((String::from_str("sc"), 10));
        from_mnemonic.push((String::from_str("rs"), 11));
        from_mnemonic.push((String::from_str("hm"), 12));
        from_mnemonic.push((String::from_str("gd"), 13));
        from_mnemonic.push((String::from_str("pd"), 14));
        from_mnemonic.push((String::from_str("os"), 15));
        let mut from_code: Vec<(u8, String)> = Vec::new();
        from_code.push((0, String::from_str("jp")));
        from_code.push((1, String::from_str("jz")));
        from_code.push((2, String::from_str("jn")));
        from_code.push((3, String::from_str("lv")));
        from_code.push((4, String::from_str("+")));
        from_code.push((5, String::from_str("-")));
        from_code.push((6, String::from_str("*")));
        from_code.push((7, String::from_str("/")));
        from_code.push((8, String::from_str("ld")));
        from_code.push((9, String::from_str("mm")));
        from_code.push((10, String::from_str("sc")));
        from_code.push((11, String::from_str("rs")));
        from_code.push((12, String::from_str("hm")));
        from_code.push((13, String::from_str("gd")));
        from_code.push((14, String::from_str("pd")));
        from_code.push((15, String::from_str("os")));
        proof {
            assert(from_mnemonic.deep_view() =~= mnemonic_entries());
            assert(from_code.deep_view() =~= code_entries());
        }
        Mnemonics { from_mnemonic, from_code }
    }

    /// Appends a symbol spelling for an address to the mnemonic table.
    pub fn insert_symbol(&mut self, symbol: &str, address: u16)
        ensures
            final(self).from_mnemonic.deep_view() == old(self).from_mnemonic.deep_view().push(
                (symbol@, address),
            ),
            final(self).from_code == old(self).from_code,
    {
        self.from_mnemonic.push((symbol.to_owned(), address));
        proof {
            assert(self.from_mnemonic.deep_view() =~= old(self).from_mnemonic.deep_view().push(
                (symbol@, address),
            ));
        }
    }
}

} // verus!
