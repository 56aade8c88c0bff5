//! The two-pass assembler.
//!
//! Pass 1 walks the tokenized statements, binds labels, collects the
//! instruction listing and the distance of every basic block.  Pass 2
//! resolves each listing entry's argument and packs mnemonic and argument
//! into the 2-byte words of the object format, behind a one-byte block-count
//! header.

use vstd::prelude::*;
use vstd::string::*;

use crate::AsmError;
use crate::AsmErrorSpec;
use crate::Symbols;
use crate::initial_symbols;

verus! {

/// A decimal digit.
pub open spec fn is_dec_digit(c: char) -> bool {
    48 <= c as u32 <= 57
}

/// The value of a decimal digit.
pub open spec fn dec_digit_val(c: char) -> u32 {
    (c as u32 - 48) as u32
}

/// A hexadecimal digit, either case.
pub open spec fn is_hex_digit(c: char) -> bool {
    48 <= c as u32 <= 57 || 65 <= c as u32 <= 70 || 97 <= c as u32 <= 102
}

/// The value of a hexadecimal digit.
pub open spec fn hex_digit_val(c: char) -> u32 {
    if 48 <= c as u32 <= 57 {
        (c as u32 - 48) as u32
    } else if 65 <= c as u32 <= 70 {
        (c as u32 - 55) as u32
    } else {
        (c as u32 - 87) as u32
    }
}

/// The 16-bit value of a decimal literal: every character a digit, the
/// value within 16 bits, and at least one digit; `None` otherwise.
pub open spec fn parse_dec(s: Seq<char>) -> Option<u16>
    decreases s.len(),
{
    if s.len() == 0 {
        None
    } else if s.len() == 1 {
        if is_dec_digit(s[0]) {
            Some(dec_digit_val(s[0]) as u16)
        } else {
            None
        }
    } else {
        match parse_dec(s.drop_last()) {
            None => None,
            Some(hi) => if is_dec_digit(s.last()) && hi * 10 + dec_digit_val(s.last()) <= 65535 {
                Some((hi * 10 + dec_digit_val(s.last())) as u16)
            } else {
                None
            },
        }
    }
}

/// The 16-bit value of a hexadecimal literal; `None` when malformed or too
/// wide.
pub open spec fn parse_hex(s: Seq<char>) -> Option<u16>
    decreases s.len(),
{
    if s.len() == 0 {
        None
    } else if s.len() == 1 {
        if is_hex_digit(s[0]) {
            Some(hex_digit_val(s[0]) as u16)
        } else {
            None
        }
    } else {
        match parse_hex(s.drop_last()) {
            None => None,
            Some(hi) => if is_hex_digit(s.last()) && hi * 16 + hex_digit_val(s.last()) <= 65535 {
                Some((hi * 16 + hex_digit_val(s.last())) as u16)
            } else {
                None
            },
        }
    }
}

/// A numeric literal: a leading `/` marks hexadecimal, otherwise decimal.
pub open spec fn parse_num(s: Seq<char>) -> Option<u16> {
    if s.len() >= 1 && s[0] == '/' {
        parse_hex(s.drop_first())
    } else {
        parse_dec(s)
    }
}

/// A line split at single spaces; splitting keeps empty pieces, as
/// consecutive separators produce them.
pub open spec fn split_spaces(s: Seq<char>) -> Seq<Seq<char>>
    decreases s.len(),
{
    if s.len() == 0 {
        seq![Seq::<char>::empty()]
    } else if s[0] == ' ' {
        seq![Seq::<char>::empty()].add(split_spaces(s.drop_first()))
    } else {
        let r = split_spaces(s.drop_first());
        r.update(0, seq![s[0]].add(r[0]))
    }
}

/// A split never yields an empty piece list.
pub proof fn lemma_split_spaces_len(s: Seq<char>)
    ensures
        split_spaces(s).len() >= 1,
    decreases s.len(),
{
    if s.len() > 0 {
        lemma_split_spaces_len(s.drop_first());
    }
}

/// A line without spaces is one single piece.
pub proof fn lemma_split_no_space(s: Seq<char>)
    requires
        forall|j: int| 0 <= j < s.len() ==> s[j] != ' ',
    ensures
        split_spaces(s) =~~= seq![s],
    decreases s.len(),
{
    if s.len() > 0 {
        assert(forall|j: int| 0 <= j < s.drop_first().len() ==> s.drop_first()[j] != ' ');
        lemma_split_no_space(s.drop_first());
        lemma_split_spaces_len(s.drop_first());
        assert(seq![s[0]].add(s.drop_first()) =~= s);
    }
}

/// Splitting at the first space: the piece before it, then the split of the
/// rest.
pub proof fn lemma_split_at_space(s: Seq<char>, i: int)
    requires
        0 <= i < s.len(),
        s[i] == ' ',
        forall|j: int| 0 <= j < i ==> s[j] != ' ',
    ensures
        split_spaces(s) =~~= seq![s.subrange(0, i)].add(
            split_spaces(s.subrange(i + 1, s.len() as int)),
        ),
    decreases i,
{
    if i == 0 {
        assert(s.subrange(0, 0) =~= Seq::<char>::empty());
        assert(s.subrange(1, s.len() as int) =~= s.drop_first());
    } else {
        let t = s.drop_first();
        assert(t[i - 1] == ' ');
        assert(forall|j: int| 0 <= j < i - 1 ==> t[j] != ' ');
        lemma_split_at_space(t, i - 1);
        lemma_split_spaces_len(t.subrange(i, t.len() as int));
        assert(t.subrange(0, i - 1) =~= s.subrange(1, i));
        assert(t.subrange(i, t.len() as int) =~= s.subrange(i + 1, s.len() as int));
        assert(seq![s[0]].add(s.subrange(1, i)) =~= s.subrange(0, i));
        assert(split_spaces(s) =~~= seq![s.subrange(0, i)].add(
            split_spaces(s.subrange(i + 1, s.len() as int)),
        ));
    }
}

/// The tokens kept from the split pieces: stop at the first piece opening a
/// comment with `;`, drop empty pieces.
pub open spec fn keep_tokens(pieces: Seq<Seq<char>>) -> Seq<Seq<char>>
    decreases pieces.len(),
{
    if pieces.len() == 0 {
        Seq::<Seq<char>>::empty()
    } else if pieces[0].len() > 0 && pieces[0][0] == ';' {
        Seq::<Seq<char>>::empty()
    } else if pieces[0].len() == 0 {
        keep_tokens(pieces.drop_first())
    } else {
        seq![pieces[0]].add(keep_tokens(pieces.drop_first()))
    }
}

/// The token sequence of one source line.
pub open spec fn tokenize_line(line: Seq<char>) -> Seq<Seq<char>> {
    keep_tokens(split_spaces(line))
}

/// The statements of a source text: each line's tokens, lines without any
/// dropped.
pub open spec fn tokenize(lines: Seq<Seq<char>>) -> Seq<Seq<Seq<char>>>
    decreases lines.len(),
{
    if lines.len() == 0 {
        Seq::<Seq<Seq<char>>>::empty()
    } else {
        let t = tokenize_line(lines.first());
        let rest = tokenize(lines.drop_first());
        if t.len() == 0 {
            rest
        } else {
            seq![t].add(rest)
        }
    }
}

/// Parses a decimal literal.
fn parse_dec_exec(s: &str) -> (r: Option<u16>)
    ensures
        r == parse_dec(s@),
{
    let n = s.unicode_len();
    if n == 0 {
        return None;
    }
    let c0 = s.get_char(0);
    let d0: u32 = c0 as u32;
    if !(48 <= d0 && d0 <= 57) {
        proof {
            lemma_parse_dec_prefix_none(s@, 1);
        }
        return None;
    }
    let mut acc: u16 = (d0 - 48) as u16;
    let mut i: usize = 1;
    proof {
        assert(s@.subrange(0, 1) =~= seq![s@[0]]);
    }
    while i < n
        invariant
            1 <= i <= n,
            n == s@.len(),
            parse_dec(s@.subrange(0, i as int)) == Some(acc),
        decreases n - i,
    {
        let c = s.get_char(i);
        let d: u32 = c as u32;
        proof {
            assert(s@.subrange(0, i + 1).drop_last() =~= s@.subrange(0, i as int));
            assert(s@.subrange(0, i + 1).last() == s@[i as int]);
        }
        if !(48 <= d && d <= 57) {
            proof {
                lemma_parse_dec_prefix_none(s@, i + 1);
            }
            return None;
        }
        let wide: u32 = acc as u32 * 10 + (d - 48);
        if wide > 65535 {
            proof {
                lemma_parse_dec_prefix_none(s@, i + 1);
            }
            return None;
        }
        acc = wide as u16;
        i += 1;
    }
    proof {
        assert(s@.subrange(0, n as int) =~= s@);
    }
    Some(acc)
}

/// A failed prefix fails the whole literal.
proof fn lemma_parse_dec_prefix_none(s: Seq<char>, i: int)
    requires
        1 <= i <= s.len(),
        parse_dec(s.subrange(0, i)) is None,
    ensures
        parse_dec(s) is None,
    decreases s.len() - i,
{
    if i == s.len() {
        assert(s.subrange(0, i) =~= s);
    } else {
        assert(s.subrange(0, i + 1).drop_last() =~= s.subrange(0, i));
        lemma_parse_dec_prefix_none(s, i + 1);
    }
}

/// Parses a hexadecimal literal.
fn parse_hex_exec(s: &str) -> (r: Option<u16>)
    ensures
        r == parse_hex(s@),
{
    let n = s.unicode_len();
    if n == 0 {
        return None;
    }
    let c0 = s.get_char(0);
    let d0: u32 = c0 as u32;
    let v0 = hex_val_exec(d0);
    let mut acc: u16;
    match v0 {
        Some(v) => {
            acc = v as u16;
        },
        None => {
            proof {
                lemma_parse_hex_prefix_none(s@, 1);
            }
            return None;
        },
    }
    let mut i: usize = 1;
    proof {
        assert(s@.subrange(0, 1) =~= seq![s@[0]]);
    }
    while i < n
        invariant
            1 <= i <= n,
            n == s@.len(),
            parse_hex(s@.subrange(0, i as int)) == Some(acc),
        decreases n - i,
    {
        let c = s.get_char(i);
        let d: u32 = c as u32;
        proof {
            assert(s@.subrange(0, i + 1).drop_last() =~= s@.subrange(0, i as int));
            assert(s@.subrange(0, i + 1).last() == s@[i as int]);
        }
        match hex_val_exec(d) {
            None => {
                proof {
                    lemma_parse_hex_prefix_none(s@, i + 1);
                }
                return None;
            },
            Some(v) => {
                let wide: u32 = acc as u32 * 16 + v;
                if wide > 65535 {
                    proof {
                        lemma_parse_hex_prefix_none(s@, i + 1);
                    }
                    return None;
                }
                acc = wide as u16;
            },
        }
        i += 1;
    }
    proof {
        assert(s@.subrange(0, n as int) =~= s@);
    }
    Some(acc)
}

/// The value of one hexadecimal digit given as its character code.
fn hex_val_exec(d: u32) -> (r: Option<u32>)
    ensures
        forall|c: char| c as u32 == d ==> r == (if is_hex_digit(c) {
            Some(hex_digit_val(c))
        } else {
            None::<u32>
        }),
        r is Some ==> r->0 <= 15,
{
    if 48 <= d && d <= 57 {
        Some(d - 48)
    } else if 65 <= d && d <= 70 {
        Some(d - 55)
    } else if 97 <= d && d <= 102 {
        Some(d - 87)
    } else {
        None
    }
}

/// A failed prefix fails the whole literal.
proof fn lemma_parse_hex_prefix_none(s: Seq<char>, i: int)
    requires
        1 <= i <= s.len(),
        parse_hex(s.subrange(0, i)) is None,
    ensures
        parse_hex(s) is None,
    decreases s.len() - i,
{
    if i == s.len() {
        assert(s.subrange(0, i) =~= s);
    } else {
        assert(s.subrange(0, i + 1).drop_last() =~= s.subrange(0, i));
        lemma_parse_hex_prefix_none(s, i + 1);
    }
}

/// Splits one line at single spaces.
fn split_line(s: &str) -> (r: Vec<String>)
    ensures
        r.deep_view() == split_spaces(s@),
    decreases s@.len(),
{
    let n = s.unicode_len();
    let mut i: usize = 0;
    while i < n
        invariant
            0 <= i <= n,
            n == s@.len(),
            forall|j: int| 0 <= j < i ==> s@[j] != ' ',
        decreases n - i,
    {
        if s.get_char(i) == ' ' {
            let head = s.substring_char(0, i).to_owned();
            let tail = s.substring_char(i + 1, n);
            let mut v = split_line(tail);
            proof {
                lemma_split_at_space(s@, i as int);
            }
            v.insert(0, head);
            proof {
                assert(v.deep_view() =~~= split_spaces(s@));
            }
            return v;
        }
        i += 1;
    }
    proof {
        lemma_split_no_space(s@);
    }
    let mut v: Vec<String> = Vec::new();
    v.push(s.to_owned());
    proof {
        assert(v.deep_view() =~~= seq![s@]);
    }
    v
}

/// Keeps a line's real tokens: stops at a `;` comment, drops empty pieces.
fn clean_tokens(pieces: Vec<String>) -> (r: Vec<String>)
    ensures
        r.deep_view() == keep_tokens(pieces.deep_view()),
{
    let ghost all = pieces.deep_view();
    let mut r: Vec<String> = Vec::new();
    let mut i: usize = 0;
    proof {
        assert(all.skip(0) =~= all);
    }
    while i < pieces.len()
        invariant
            0 <= i <= pieces@.len(),
            all == pieces.deep_view(),
            keep_tokens(all) == r.deep_view().add(keep_tokens(all.skip(i as int))),
        decreases pieces@.len() - i,
    {
        proof {
            assert(all.skip(i as int).drop_first() =~= all.skip(i + 1));
            assert(all.skip(i as int)[0] == all[i as int]);
            assert(all[i as int] == pieces@[i as int]@);
        }
        let piece = &pieces[i];
        if piece.as_str().unicode_len() > 0 {
            if piece.as_str().get_char(0) == ';' {
                proof {
                    assert(keep_tokens(all.skip(i as int)) =~= Seq::<Seq<char>>::empty());
                    assert(r.deep_view() =~~= keep_tokens(all));
                }
                return r;
            }
            let ghost prev = r.deep_view();
            r.push(piece.clone());
            proof {
                assert(r.deep_view() =~= prev.push(all[i as int]));
                assert(keep_tokens(all.skip(i as int)) =~~= seq![all[i as int]].add(
                    keep_tokens(all.skip(i + 1)),
                ));
                assert(keep_tokens(all) =~~= r.deep_view().add(keep_tokens(all.skip(i + 1))));
            }
        }
        i += 1;
    }
    proof {
        assert(all.skip(all.len() as int) =~= Seq::<Seq<char>>::empty());
        assert(r.deep_view() =~~= keep_tokens(all));
    }
    r
}

/// A token whose first character is `c`.
pub open spec fn starts_with(t: Seq<char>, c: char) -> bool {
    t.len() > 0 && t[0] == c
}

/// The assembler's working state during the first pass.  `distances` keeps
/// one element per block seen so far plus a leading sentinel; its last
/// element holds the start address of the still-open block.
pub ghost struct AsmState {
    pub line_count: u16,
    pub symbols: Map<Seq<char>, u16>,
    pub listing: Seq<Seq<Seq<char>>>,
    pub distances: Seq<u16>,
}

impl AsmState {
    /// The start of an assembly run: nothing listed, the pre-seeded symbols,
    /// and the distance sentinel.
    pub open spec fn start() -> AsmState {
        AsmState {
            line_count: 0,
            symbols: initial_symbols(),
            listing: Seq::<Seq<Seq<char>>>::empty(),
            distances: seq![0u16],
        }
    }

    /// Every listing entry carries exactly a mnemonic and an argument.
    pub open spec fn wf_listing(self) -> bool {
        forall|i: int| 0 <= i < self.listing.len() ==> (#[trigger] self.listing[i]).len() == 2
    }

    /// Well-formed: the sentinel is present, the open block starts at or
    /// before the current offset, and the listing entries are pairs.
    pub open spec fn wf(self) -> bool {
        &&& self.distances.len() >= 1
        &&& self.distances.last() <= self.line_count
        &&& self.wf_listing()
    }
}

/// Closing the open block: its word count replaces the tracked start
/// address, and the next block's start is appended.
pub open spec fn close_block(s: AsmState, new_start: u16) -> Seq<u16> {
    s.distances.update(
        s.distances.len() - 1,
        (s.line_count - s.distances.last()) as u16,
    ).push(new_start)
}

/// One first-pass step over a statement.  `Ok((state, true))` signals the
/// block-end directive: the pass stops and ignores any later statements.
pub open spec fn step1(s: AsmState, stmt: Seq<Seq<char>>) -> Result<
    (AsmState, bool),
    AsmErrorSpec,
> {
    if stmt.len() == 2 {
        if starts_with(stmt[0], '@') {
            match parse_num(stmt[1]) {
                None => Err(AsmErrorSpec::Syntax),
                Some(addr) => Ok(
                    (
                        AsmState {
                            line_count: addr,
                            symbols: s.symbols,
                            listing: s.listing.push(stmt),
                            distances: close_block(s, addr),
                        },
                        false,
                    ),
                ),
            }
        } else if starts_with(stmt[0], '#') {
            Ok(
                (
                    AsmState {
                        line_count: s.line_count,
                        symbols: s.symbols,
                        listing: seq![seq!["JP"@, stmt[1]]].add(s.listing),
                        distances: close_block(s, s.line_count),
                    },
                    true,
                ),
            )
        } else {
            let adv: u16 = if starts_with(stmt[0], 'K') {
                1
            } else {
                2
            };
            if s.line_count + adv > 65535 {
                Err(AsmErrorSpec::Range)
            } else {
                Ok(
                    (
                        AsmState {
                            line_count: (s.line_count + adv) as u16,
                            symbols: s.symbols,
                            listing: s.listing.push(stmt),
                            distances: s.distances,
                        },
                        false,
                    ),
                )
            }
        }
    } else if stmt.len() == 1 {
        if s.symbols.contains_key(stmt[0]) {
            Err(AsmErrorSpec::DuplicateSymbol(stmt[0]))
        } else {
            Ok(
                (
                    AsmState {
                        line_count: s.line_count,
                        symbols: s.symbols.insert(stmt[0], s.line_count),
                        listing: s.listing,
                        distances: s.distances,
                    },
                    false,
                ),
            )
        }
    } else if stmt.len() == 3 {
        if s.symbols.contains_key(stmt[0]) {
            Err(AsmErrorSpec::DuplicateSymbol(stmt[0]))
        } else {
            let adv: u16 = if starts_with(stmt[1], 'K') {
                1
            } else {
                2
            };
            if s.line_count + adv > 65535 {
                Err(AsmErrorSpec::Range)
            } else {
                Ok(
                    (
                        AsmState {
                            line_count: (s.line_count + adv) as u16,
                            symbols: s.symbols.insert(stmt[0], s.line_count),
                            listing: s.listing.push(seq![stmt[1], stmt[2]]),
                            distances: s.distances,
                        },
                        false,
                    ),
                )
            }
        }
    } else {
        Err(AsmErrorSpec::Syntax)
    }
}

/// What the first pass hands to the encoder: the final symbol table, the
/// listing, and one distance per completed block (sentinel and trailing
/// start dropped).
pub ghost struct Pass1Out {
    pub symbols: Map<Seq<char>, u16>,
    pub listing: Seq<Seq<Seq<char>>>,
    pub distances: Seq<u16>,
}

/// Trimming after the block-end directive: the sentinel and the last pushed
/// start go; what stays must hold at least one completed block.
pub open spec fn finish_pass1(s: AsmState) -> Result<Pass1Out, AsmErrorSpec> {
    let trimmed = s.distances.subrange(1, s.distances.len() - 1);
    if trimmed.len() == 0 {
        Err(AsmErrorSpec::MissingBlock)
    } else {
        Ok(Pass1Out { symbols: s.symbols, listing: s.listing, distances: trimmed })
    }
}

/// The whole first pass from statement `i` on.  A source that never reaches
/// a block-end directive has no complete block.
pub open spec fn pass1(s: AsmState, stmts: Seq<Seq<Seq<char>>>, i: int) -> Result<
    Pass1Out,
    AsmErrorSpec,
>
    decreases stmts.len() - i,
{
    if i < 0 || i >= stmts.len() {
        Err(AsmErrorSpec::MissingBlock)
    } else {
        match step1(s, stmts[i]) {
            Err(e) => Err(e),
            Ok((s2, true)) => finish_pass1(s2),
            Ok((s2, false)) => pass1(s2, stmts, i + 1),
        }
    }
}

/// A first-pass step away from the block-end directive keeps the state
/// well-formed.
pub proof fn lemma_step1_wf(s: AsmState, stmt: Seq<Seq<char>>)
    requires
        s.wf(),
    ensures
        match step1(s, stmt) {
            Ok((s2, _)) => s2.wf(),
            Err(_) => true,
        },
{
}

/// The position of the first `+` in a token, or its length when there is
/// none.
pub open spec fn first_plus(s: Seq<char>) -> int
    decreases s.len(),
{
    if s.len() == 0 {
        0
    } else if s[0] == '+' {
        0
    } else {
        1 + first_plus(s.drop_first())
    }
}

/// Where the first `+` lies: within bounds, nothing before it is a `+`, and
/// it is a `+` itself unless the token has none.
pub proof fn lemma_first_plus(s: Seq<char>)
    ensures
        0 <= first_plus(s) <= s.len(),
        forall|j: int| 0 <= j < first_plus(s) ==> s[j] != '+',
        first_plus(s) < s.len() ==> s[first_plus(s)] == '+',
    decreases s.len(),
{
    if s.len() > 0 && s[0] != '+' {
        lemma_first_plus(s.drop_first());
        assert(forall|j: int| 1 <= j < first_plus(s) ==> s[j] == s.drop_first()[j - 1]);
    }
}

/// A quote character somewhere in the token.
pub open spec fn has_quote(s: Seq<char>) -> bool {
    exists|j: int| 0 <= j < s.len() && s[j] == '"'
}

/// An argument token resolved to its 16-bit value against a symbol table.
/// A `+` adds a symbol's value and a decimal offset; a bound symbol gives
/// its value; a quoted character gives its character code; anything else
/// must be a numeric literal.
pub open spec fn resolve_argument(symbols: Map<Seq<char>, u16>, a: Seq<char>) -> Result<
    u16,
    AsmErrorSpec,
> {
    if first_plus(a) < a.len() {
        let left = a.subrange(0, first_plus(a));
        let rest = a.subrange(first_plus(a) + 1, a.len() as int);
        let right = rest.subrange(0, first_plus(rest));
        if !symbols.contains_key(left) {
            Err(AsmErrorSpec::UnresolvedSymbol(left))
        } else {
            match parse_dec(right) {
                None => Err(AsmErrorSpec::Syntax),
                Some(v) => if symbols[left] + v > 65535 {
                    Err(AsmErrorSpec::Range)
                } else {
                    Ok((symbols[left] + v) as u16)
                },
            }
        }
    } else if symbols.contains_key(a) {
        Ok(symbols[a])
    } else if has_quote(a) {
        if a.len() >= 2 {
            Ok(((a[1] as u32) % 65536) as u16)
        } else {
            Err(AsmErrorSpec::Syntax)
        }
    } else {
        match parse_num(a) {
            None => Err(AsmErrorSpec::UnresolvedSymbol(a)),
            Some(v) => Ok(v),
        }
    }
}

/// An instruction word packed as two bytes: opcode nibble above the top
/// nibble of the 12-bit argument, then the argument's low byte.
pub open spec fn pack_word(code: u16, arg: u16) -> Seq<u8> {
    seq![(code * 16 + arg / 256) as u8, (arg % 256) as u8]
}

/// The object bytes of the listing entries from `i` on, `di` distances
/// already consumed by earlier block-start directives.
pub open spec fn encode_listing(
    symbols: Map<Seq<char>, u16>,
    listing: Seq<Seq<Seq<char>>>,
    distances: Seq<u16>,
    i: int,
    di: int,
) -> Result<Seq<u8>, AsmErrorSpec>
    decreases listing.len() - i,
{
    if i < 0 || i >= listing.len() {
        Ok(Seq::<u8>::empty())
    } else {
        let entry = listing[i];
        if entry.len() != 2 {
            Err(AsmErrorSpec::Syntax)
        } else if !symbols.contains_key(entry[0]) {
            Err(AsmErrorSpec::UnresolvedSymbol(entry[0]))
        } else {
            let code = symbols[entry[0]];
            match resolve_argument(symbols, entry[1]) {
                Err(e) => Err(e),
                Ok(arg) => if entry[0] == "@"@ {
                    if di < 0 || di >= distances.len() {
                        Err(AsmErrorSpec::MissingBlock)
                    } else {
                        match encode_listing(symbols, listing, distances, i + 1, di + 1) {
                            Err(e) => Err(e),
                            Ok(tail) => Ok(
                                seq![
                                    (arg / 256) as u8,
                                    (arg % 256) as u8,
                                    (distances[di] % 256) as u8,
                                ].add(tail),
                            ),
                        }
                    }
                } else if entry[0] == "K"@ {
                    match encode_listing(symbols, listing, distances, i + 1, di) {
                        Err(e) => Err(e),
                        Ok(tail) => Ok(seq![(arg % 256) as u8].add(tail)),
                    }
                } else if code > 15 || arg > 4095 {
                    Err(AsmErrorSpec::Range)
                } else {
                    match encode_listing(symbols, listing, distances, i + 1, di) {
                        Err(e) => Err(e),
                        Ok(tail) => Ok(pack_word(code, arg).add(tail)),
                    }
                },
            }
        }
    }
}

/// The whole second pass: the block-count header byte, then the encoded
/// listing.
pub open spec fn pass2(out: Pass1Out) -> Result<Seq<u8>, AsmErrorSpec> {
    match encode_listing(out.symbols, out.listing, out.distances, 0, 0) {
        Err(e) => Err(e),
        Ok(body) => Ok(seq![(out.distances.len() % 256) as u8].add(body)),
    }
}

/// What assembling a source text yields: the object bytes, or the first
/// fatal error.
pub open spec fn asm_spec(lines: Seq<Seq<char>>) -> Result<Seq<u8>, AsmErrorSpec> {
    match pass1(AsmState::start(), tokenize(lines), 0) {
        Err(e) => Err(e),
        Ok(out) => pass2(out),
    }
}

/// Glues a prefix onto an encoding result.
pub open spec fn prepend_bytes(prefix: Seq<u8>, r: Result<Seq<u8>, AsmErrorSpec>) -> Result<
    Seq<u8>,
    AsmErrorSpec,
> {
    match r {
        Ok(t) => Ok(prefix.add(t)),
        Err(e) => Err(e),
    }
}

/// A statement that opens a basic block: `@ <address>`.
pub open spec fn is_block_start(stmt: Seq<Seq<char>>) -> bool {
    stmt.len() == 2 && starts_with(stmt[0], '@')
}

/// A statement that ends the program's block structure: `# <label>`.
pub open spec fn is_block_end(stmt: Seq<Seq<char>>) -> bool {
    stmt.len() == 2 && !starts_with(stmt[0], '@') && starts_with(stmt[0], '#')
}

/// A statement that declares a label: a bare label, or a labelled
/// instruction.
pub open spec fn binds_label(stmt: Seq<Seq<char>>, l: Seq<char>) -> bool {
    (stmt.len() == 1 || stmt.len() == 3) && stmt[0] == l
}

/// The block-start statements read from `i` up to the first block-end
/// directive (or the end of the source).
pub open spec fn count_blocks(stmts: Seq<Seq<Seq<char>>>, i: int) -> int
    decreases stmts.len() - i,
{
    if i < 0 || i >= stmts.len() {
        0
    } else if is_block_end(stmts[i]) {
        0
    } else {
        (if is_block_start(stmts[i]) {
            1int
        } else {
            0int
        }) + count_blocks(stmts, i + 1)
    }
}

/// Law: when the first pass succeeds it hands over one distance per
/// block-start directive read before the terminator, and at least one.
pub proof fn lemma_pass1_block_count(s: AsmState, stmts: Seq<Seq<Seq<char>>>, i: int)
    requires
        s.distances.len() >= 1,
    ensures
        match pass1(s, stmts, i) {
            Ok(out) => out.distances.len() == s.distances.len() - 1 + count_blocks(stmts, i)
                && out.distances.len() >= 1,
            Err(_) => true,
        },
    decreases stmts.len() - i,
{
    if 0 <= i < stmts.len() {
        match step1(s, stmts[i]) {
            Err(_) => {},
            Ok((s2, true)) => {},
            Ok((s2, false)) => {
                lemma_pass1_block_count(s2, stmts, i + 1);
            },
        }
    }
}

/// Law: a source whose statements never reach a block-end directive aborts
/// assembly; no bytes are emitted.
pub proof fn lemma_no_block_end_aborts(s: AsmState, stmts: Seq<Seq<Seq<char>>>, i: int)
    requires
        forall|k: int| 0 <= k < stmts.len() ==> !is_block_end(#[trigger] stmts[k]),
        0 <= i,
    ensures
        pass1(s, stmts, i) is Err,
    decreases stmts.len() - i,
{
    if i < stmts.len() {
        match step1(s, stmts[i]) {
            Err(_) => {},
            Ok((s2, b)) => {
                assert(!b);
                lemma_no_block_end_aborts(s2, stmts, i + 1);
            },
        }
    }
}

/// Law: a source with no complete `@ … #` block never assembles: either no
/// block-end directive is reached, or no block-start was read before it.
pub proof fn lemma_missing_block_aborts(lines: Seq<Seq<char>>)
    requires
        count_blocks(tokenize(lines), 0) == 0,
    ensures
        asm_spec(lines) is Err,
{
    lemma_pass1_block_count(AsmState::start(), tokenize(lines), 0);
}

/// Law: a valid source with exactly one basic block assembles to an object
/// buffer whose first byte, the block count, is 1.
pub proof fn lemma_single_block_header(lines: Seq<Seq<char>>, buf: Seq<u8>)
    requires
        asm_spec(lines) == Ok::<Seq<u8>, AsmErrorSpec>(buf),
        count_blocks(tokenize(lines), 0) == 1,
    ensures
        buf.len() >= 1,
        buf[0] == 1,
{
    lemma_pass1_block_count(AsmState::start(), tokenize(lines), 0);
}

/// Once a label is bound it stays bound, so a second declaration of it,
/// met before any block-end directive, fails the pass.
proof fn lemma_bound_label_aborts(s: AsmState, stmts: Seq<Seq<Seq<char>>>, i0: int, j: int, l: Seq<
    char,
>)
    requires
        0 <= i0 <= j < stmts.len(),
        s.symbols.contains_key(l),
        binds_label(stmts[j], l),
        forall|m: int| i0 <= m < j ==> !is_block_end(#[trigger] stmts[m]),
    ensures
        pass1(s, stmts, i0) is Err,
    decreases j - i0,
{
    if i0 < j {
        match step1(s, stmts[i0]) {
            Err(_) => {},
            Ok((s2, b)) => {
                assert(!b);
                assert(s2.symbols.contains_key(l));
                lemma_bound_label_aborts(s2, stmts, i0 + 1, j, l);
            },
        }
    }
}

/// Law: duplicate label declarations, both read before any block-end
/// directive, always abort assembly; no bytes are emitted.
pub proof fn lemma_duplicate_label_aborts(lines: Seq<Seq<char>>, i: int, j: int, l: Seq<char>)
    requires
        0 <= i < j < tokenize(lines).len(),
        binds_label(tokenize(lines)[i], l),
        binds_label(tokenize(lines)[j], l),
        forall|m: int| 0 <= m < j ==> !is_block_end(#[trigger] tokenize(lines)[m]),
    ensures
        asm_spec(lines) is Err,
{
    lemma_dup_from(AsmState::start(), tokenize(lines), 0, i, j, l);
}

/// Walking toward the first of two declarations of one label: the pass
/// fails at the second at the latest.
proof fn lemma_dup_from(
    s: AsmState,
    stmts: Seq<Seq<Seq<char>>>,
    i0: int,
    i: int,
    j: int,
    l: Seq<char>,
)
    requires
        0 <= i0 <= i < j < stmts.len(),
        binds_label(stmts[i], l),
        binds_label(stmts[j], l),
        forall|m: int| i0 <= m < j ==> !is_block_end(#[trigger] stmts[m]),
    ensures
        pass1(s, stmts, i0) is Err,
    decreases j - i0,
{
    match step1(s, stmts[i0]) {
        Err(_) => {},
        Ok((s2, b)) => {
            assert(!b);
            if i0 == i {
                assert(s2.symbols.contains_key(l));
                lemma_bound_label_aborts(s2, stmts, i0 + 1, j, l);
            } else {
                lemma_dup_from(s2, stmts, i0 + 1, i, j, l);
            }
        },
    }
}

/// Law: assembly is deterministic.  Two results of assembling the same
/// source are identical: the same bytes, or the same error.
pub proof fn lemma_assembly_deterministic(
    lines: Seq<Seq<char>>,
    r1: Result<Seq<u8>, AsmErrorSpec>,
    r2: Result<Seq<u8>, AsmErrorSpec>,
)
    requires
        r1 == asm_spec(lines),
        r2 == asm_spec(lines),
    ensures
        r1 == r2,
{
}

/// The two-pass assembler.  It owns the symbol table, the listing and the
/// block distances for the lifetime of one assembly run.
pub struct Assembler {
    line_count: u16,
    symbols: Symbols,
    listing: Vec<Vec<String>>,
    distances: Vec<u16>,
}

impl View for Assembler {
    type V = AsmState;

    closed spec fn view(&self) -> AsmState {
        AsmState {
            line_count: self.line_count,
            symbols: self.symbols@,
            listing: self.listing.deep_view(),
            distances: self.distances@,
        }
    }
}

/// Whether the first character of a token is `c`.
fn first_char_is(t: &str, c: char) -> (r: bool)
    ensures
        r == starts_with(t@, c),
{
    if t.unicode_len() == 0 {
        false
    } else {
        t.get_char(0) == c
    }
}

impl Assembler {
    /// A fresh assembler: pre-seeded symbols, empty listing, the distance
    /// sentinel in place.
    pub fn new() -> (r: Assembler)
        ensures
            r@ == AsmState::start(),
            r@.wf(),
    {
        let symbols = Symbols::new();
        let listing: Vec<Vec<String>> = Vec::new();
        let mut distances: Vec<u16> = Vec::new();
        distances.push(0);
        let r = Assembler { line_count: 0, symbols, listing, distances };
        proof {
            assert(r@.listing =~= AsmState::start().listing);
            assert(r@.distances =~= AsmState::start().distances);
        }
        r
    }

    /// Closes the open block: writes its length over the tracked start and
    /// pushes the next block's start address.
    fn update_distances(&mut self, new_linecount: u16)
        requires
            old(self)@.wf(),
        ensures
            final(self)@ == (AsmState {
                distances: close_block(old(self)@, new_linecount),
                ..old(self)@
            }),
    {
        let n = self.distances.len() - 1;
        let last = self.distances[n];
        self.distances[n] = self.line_count - last;
        self.distances.push(new_linecount);
    }

    /// Parses a numeric literal: a leading `/` marks hexadecimal, otherwise
    /// decimal.
    fn parse_nums(&self, argument: &str) -> (r: Option<u16>)
        ensures
            r == parse_num(argument@),
    {
        let n = argument.unicode_len();
        if n >= 1 && argument.get_char(0) == '/' {
            let rest = argument.substring_char(1, n);
            proof {
                assert(rest@ =~= argument@.drop_first());
            }
            parse_hex_exec(rest)
        } else {
            parse_dec_exec(argument)
        }
    }

    /// Applies one statement to the first-pass state.  `Ok(true)` reports
    /// the block-end directive: the caller stops reading statements.
    fn handle_statement(&mut self, statement: &Vec<String>) -> (r: Result<bool, AsmError>)
        requires
            old(self)@.wf(),
        ensures
            match r {
                Ok(b) => step1(old(self)@, statement.deep_view()) == Ok::<_, AsmErrorSpec>(
                    (final(self)@, b),
                ) && final(self)@.wf(),
                Err(e) => step1(old(self)@, statement.deep_view()) == Err::<(AsmState, bool), _>(
                    e@,
                ),
            },
    {
        let ghost st = statement.deep_view();
        proof {
            assert(st.len() == statement@.len());
            assert(forall|k: int| 0 <= k < st.len() ==> st[k] == statement@[k]@);
        }
        let n = statement.len();
        if n == 2 {
            if first_char_is(statement[0].as_str(), '@') {
                let addr = match self.parse_nums(statement[1].as_str()) {
                    None => {
                        return Err(AsmError::Syntax);
                    },
                    Some(a) => a,
                };
                self.update_distances(addr);
                self.line_count = addr;
                let mut entry: Vec<String> = Vec::new();
                entry.push(statement[0].clone());
                entry.push(statement[1].clone());
                proof {
                    assert(entry.deep_view() =~= seq![st[0], st[1]]);
                    assert(entry.deep_view() =~= st);
                }
                self.listing.push(entry);
                proof {
                    assert(self.listing.deep_view() =~~= old(self)@.listing.push(st));
                }
                Ok(false)
            } else if first_char_is(statement[0].as_str(), '#') {
                let lc = self.line_count;
                self.update_distances(lc);
                let mut entry: Vec<String> = Vec::new();
                entry.push(String::from_str("JP"));
                entry.push(statement[1].clone());
                proof {
                    assert(entry.deep_view() =~= seq!["JP"@, st[1]]);
                }
                self.listing.insert(0, entry);
                proof {
                    assert(self.listing.deep_view() =~~= seq![seq!["JP"@, st[1]]].add(
                        old(self)@.listing,
                    ));
                }
                Ok(true)
            } else {
                let adv: u16 = if first_char_is(statement[0].as_str(), 'K') {
                    1
                } else {
                    2
                };
                if self.line_count > 65535 - adv {
                    return Err(AsmError::Range);
                }
                self.line_count = self.line_count + adv;
                let mut entry: Vec<String> = Vec::new();
                entry.push(statement[0].clone());
                entry.push(statement[1].clone());
                proof {
                    assert(entry.deep_view() =~= st);
                }
                self.listing.push(entry);
                proof {
                    assert(self.listing.deep_view() =~~= old(self)@.listing.push(st));
                }
                Ok(false)
            }
        } else if n == 1 {
            let lc = self.line_count;
            match self.symbols.insert(statement[0].as_str(), lc) {
                Err(e) => Err(e),
                Ok(()) => Ok(false),
            }
        } else if n == 3 {
            let lc = self.line_count;
            match self.symbols.insert(statement[0].as_str(), lc) {
                Err(e) => {
                    return Err(e);
                },
                Ok(()) => {},
            }
            let adv: u16 = if first_char_is(statement[1].as_str(), 'K') {
                1
            } else {
                2
            };
            if self.line_count > 65535 - adv {
                return Err(AsmError::Range);
            }
            self.line_count = self.line_count + adv;
            let mut entry: Vec<String> = Vec::new();
            entry.push(statement[1].clone());
            entry.push(statement[2].clone());
            self.listing.push(entry);
            proof {
                assert(entry.deep_view() =~= seq![st[1], st[2]]);
                assert(self.listing.deep_view() =~~= old(self)@.listing.push(seq![st[1], st[2]]));
            }
            Ok(false)
        } else {
            Err(AsmError::Syntax)
        }
    }

    /// Splits raw source lines into statements: tokens separated by single
    /// spaces, a `;` token starting a comment, empty lines dropped.
    pub fn get_valid_statements(&self, lines: &Vec<String>) -> (r: Vec<Vec<String>>)
        ensures
            r.deep_view() == tokenize(lines.deep_view()),
    {
        let ghost all = lines.deep_view();
        let mut result: Vec<Vec<String>> = Vec::new();
        let mut i: usize = 0;
        proof {
            assert(all.skip(0) =~= all);
        }
        while i < lines.len()
            invariant
                0 <= i <= lines@.len(),
                all == lines.deep_view(),
                tokenize(all) == result.deep_view().add(tokenize(all.skip(i as int))),
            decreases lines@.len() - i,
        {
            proof {
                assert(all.skip(i as int).drop_first() =~= all.skip(i + 1));
                assert(all.skip(i as int).first() == all[i as int]);
                assert(all[i as int] == lines@[i as int]@);
            }
            let pieces = split_line(lines[i].as_str());
            let words = clean_tokens(pieces);
            if words.len() > 0 {
                let ghost prev = result.deep_view();
                result.push(words);
                proof {
                    assert(result.deep_view() =~= prev.push(tokenize_line(all[i as int])));
                    assert(tokenize(all) =~~= result.deep_view().add(tokenize(all.skip(i + 1))));
                }
            }
            i += 1;
        }
        proof {
            assert(all.skip(all.len() as int) =~= Seq::<Seq<char>>::empty());
            assert(result.deep_view() =~~= tokenize(all));
        }
        result
    }

    /// The first pass: walks the statements until the block-end directive,
    /// then trims the distances to one entry per completed block.
    fn run_first_pass(&mut self, statements: &Vec<Vec<String>>) -> (r: Result<(), AsmError>)
        requires
            old(self)@.wf(),
        ensures
            match r {
                Ok(()) => pass1(old(self)@, statements.deep_view(), 0) == Ok::<_, AsmErrorSpec>(
                    Pass1Out {
                        symbols: final(self)@.symbols,
                        listing: final(self)@.listing,
                        distances: final(self)@.distances,
                    },
                ) && final(self)@.wf_listing(),
                Err(e) => pass1(old(self)@, statements.deep_view(), 0) == Err::<Pass1Out, _>(e@),
            },
    {
        let ghost stmts = statements.deep_view();
        let ghost s0 = self@;
        let mut i: usize = 0;
        let mut terminated = false;
        while i < statements.len() && !terminated
            invariant
                0 <= i <= statements@.len(),
                stmts == statements.deep_view(),
                s0 == old(self)@,
                self@.wf(),
                !terminated ==> pass1(s0, stmts, 0) == pass1(self@, stmts, i as int),
                terminated ==> pass1(s0, stmts, 0) == finish_pass1(self@) && self@.distances.len()
                    >= 2 && self@.wf_listing(),
            decreases statements@.len() - i + (if terminated {
                0int
            } else {
                1int
            }),
        {
            let stmt = &statements[i];
            let ghost pre = self@;
            proof {
                assert(stmt.deep_view() =~= stmts[i as int]);
            }
            match self.handle_statement(stmt) {
                Err(e) => {
                    proof {
                        assert(pass1(pre, stmts, i as int) == Err::<Pass1Out, AsmErrorSpec>(e@));
                    }
                    return Err(e);
                },
                Ok(b) => {
                    proof {
                        if b {
                            assert(pass1(pre, stmts, i as int) == finish_pass1(self@));
                        } else {
                            assert(pass1(pre, stmts, i as int) == pass1(self@, stmts, i + 1));
                        }
                    }
                    terminated = b;
                },
            }
            i += 1;
        }
        if !terminated {
            return Err(AsmError::MissingBlock);
        }
        // Drop the trailing block start, then the sentinel.
        let dlen = self.distances.len();
        let ghost closed = self@;
        self.distances.truncate(dlen - 1);
        if self.distances.len() >= 1 {
            self.distances.remove(0);
        }
        proof {
            assert(self.distances@ =~= closed.distances.subrange(
                1,
                closed.distances.len() - 1,
            ));
        }
        if self.distances.len() == 0 {
            return Err(AsmError::MissingBlock);
        }
        Ok(())
    }

    /// Splits a 16-bit word into its high and low byte.
    fn split_word(&self, word: u16) -> (r: (u8, u8))
        ensures
            r.0 == word / 256,
            r.1 == word % 256,
    {
        ((word / 256) as u8, (word % 256) as u8)
    }

    /// Resolves an argument token against the symbol table.
    fn convert_argument(&self, argument: &str) -> (r: Result<u16, AsmError>)
        ensures
            match r {
                Ok(v) => resolve_argument(self@.symbols, argument@) == Ok::<u16, AsmErrorSpec>(v),
                Err(e) => resolve_argument(self@.symbols, argument@) == Err::<u16, _>(e@),
            },
    {
        let n = argument.unicode_len();
        proof {
            lemma_first_plus(argument@);
        }
        let mut i: usize = 0;
        while i < n
            invariant
                0 <= i <= n,
                n == argument@.len(),
                forall|j: int| 0 <= j < i ==> argument@[j] != '+',
            decreases n - i,
        {
            if argument.get_char(i) == '+' {
                proof {
                    lemma_first_plus(argument@);
                    assert(first_plus(argument@) == i);
                }
                let left = argument.substring_char(0, i);
                let rest = argument.substring_char(i + 1, n);
                proof {
                    assert(left@ =~= argument@.subrange(0, i as int));
                    assert(rest@ =~= argument@.subrange(i + 1, n as int));
                    lemma_first_plus(rest@);
                }
                let m = rest.unicode_len();
                let mut k: usize = 0;
                let mut plus_end: usize = m;
                let mut found = false;
                while k < m && !found
                    invariant
                        0 <= k <= m,
                        m == rest@.len(),
                        !found ==> plus_end == m && forall|j: int| 0 <= j < k ==> rest@[j] != '+',
                        found ==> plus_end == first_plus(rest@),
                    decreases m - k + (if found {
                        0int
                    } else {
                        1int
                    }),
                {
                    if rest.get_char(k) == '+' {
                        proof {
                            lemma_first_plus(rest@);
                        }
                        plus_end = k;
                        found = true;
                    } else {
                        k += 1;
                    }
                }
                proof {
                    lemma_first_plus(rest@);
                    assert(plus_end == first_plus(rest@));
                }
                let right = rest.substring_char(0, plus_end);
                proof {
                    assert(right@ =~= rest@.subrange(0, first_plus(rest@)));
                }
                return match self.symbols.lookup(left) {
                    None => Err(AsmError::UnresolvedSymbol(left.to_owned())),
                    Some(lv) => match parse_dec_exec(right) {
                        None => Err(AsmError::Syntax),
                        Some(v) => {
                            if lv as u32 + v as u32 > 65535 {
                                Err(AsmError::Range)
                            } else {
                                Ok(lv + v)
                            }
                        },
                    },
                };
            }
            i += 1;
        }
        proof {
            lemma_first_plus(argument@);
            assert(first_plus(argument@) == n);
        }
        match self.symbols.lookup(argument) {
            Some(v) => Ok(v),
            None => {
                let mut k: usize = 0;
                while k < n
                    invariant
                        0 <= k <= n,
                        n == argument@.len(),
                        first_plus(argument@) == argument@.len(),
                        !self@.symbols.contains_key(argument@),
                        forall|j: int| 0 <= j < k ==> argument@[j] != '"',
                    decreases n - k,
                {
                    if argument.get_char(k) == '"' {
                        proof {
                            assert(has_quote(argument@));
                        }
                        if n >= 2 {
                            let c = argument.get_char(1);
                            let code: u32 = c as u32;
                            return Ok((code % 65536) as u16);
                        } else {
                            return Err(AsmError::Syntax);
                        }
                    }
                    k += 1;
                }
                assert(!has_quote(argument@));
                match self.parse_nums(argument) {
                    Some(v) => Ok(v),
                    None => Err(AsmError::UnresolvedSymbol(argument.to_owned())),
                }
            },
        }
    }

    /// The second pass: resolves every listing entry and emits the object
    /// bytes behind the block-count header.
    fn run_second_pass(&self) -> (r: Result<Vec<u8>, AsmError>)
        requires
            self@.wf_listing(),
        ensures
            match r {
                Ok(buf) => pass2(
                    Pass1Out {
                        symbols: self@.symbols,
                        listing: self@.listing,
                        distances: self@.distances,
                    },
                ) == Ok::<Seq<u8>, AsmErrorSpec>(buf@),
                Err(e) => pass2(
                    Pass1Out {
                        symbols: self@.symbols,
                        listing: self@.listing,
                        distances: self@.distances,
                    },
                ) == Err::<Seq<u8>, _>(e@),
            },
    {
        let ghost sym = self@.symbols;
        let ghost lst = self@.listing;
        let ghost dst = self@.distances;
        let ghost target = pass2(Pass1Out { symbols: sym, listing: lst, distances: dst });
        let mut buffer: Vec<u8> = Vec::new();
        buffer.push((self.distances.len() % 256) as u8);
        let at_str = String::from_str("@");
        let k_str = String::from_str("K");
        let mut i: usize = 0;
        let mut di: usize = 0;
        proof {
            assert(target == prepend_bytes(buffer@, encode_listing(sym, lst, dst, 0, 0)));
        }
        while i < self.listing.len()
            invariant
                0 <= i <= self.listing@.len(),
                0 <= di,
                sym == self@.symbols,
                lst == self@.listing,
                dst == self@.distances,
                self@.wf_listing(),
                at_str@ == "@"@,
                k_str@ == "K"@,
                target == pass2(Pass1Out { symbols: sym, listing: lst, distances: dst }),
                target == prepend_bytes(
                    buffer@,
                    encode_listing(sym, lst, dst, i as int, di as int),
                ),
            decreases self.listing@.len() - i,
        {
            let entry = &self.listing[i];
            let ghost ev = entry.deep_view();
            proof {
                assert(ev == lst[i as int]);
                assert(ev.len() == 2);
                assert(ev[0] == entry@[0]@);
                assert(ev[1] == entry@[1]@);
            }
            let code = match self.symbols.lookup(entry[0].as_str()) {
                None => {
                    return Err(AsmError::UnresolvedSymbol(entry[0].clone()));
                },
                Some(c) => c,
            };
            let arg = match self.convert_argument(entry[1].as_str()) {
                Err(e) => {
                    return Err(e);
                },
                Ok(a) => a,
            };
            if entry[0].eq(&at_str) {
                if di >= self.distances.len() {
                    return Err(AsmError::MissingBlock);
                }
                let (msb, lsb) = self.split_word(arg);
                let dist_byte = (self.distances[di] % 256) as u8;
                let ghost before = buffer@;
                buffer.push(msb);
                buffer.push(lsb);
                buffer.push(dist_byte);
                di += 1;
                proof {
                    let tail = encode_listing(sym, lst, dst, i + 1, di as int);
                    match tail {
                        Ok(t) => {
                            assert(buffer@.add(t) =~= before.add(
                                seq![msb, lsb, dist_byte].add(t),
                            ));
                        },
                        Err(_) => {},
                    }
                    assert(target == prepend_bytes(buffer@, tail));
                }
            } else if entry[0].eq(&k_str) {
                let byte = (arg % 256) as u8;
                let ghost before = buffer@;
                buffer.push(byte);
                proof {
                    let tail = encode_listing(sym, lst, dst, i + 1, di as int);
                    match tail {
                        Ok(t) => {
                            assert(buffer@.add(t) =~= before.add(seq![byte].add(t)));
                        },
                        Err(_) => {},
                    }
                    assert(target == prepend_bytes(buffer@, tail));
                }
            } else {
                if code > 15 || arg > 4095 {
                    return Err(AsmError::Range);
                }
                let msb = (code * 16 + arg / 256) as u8;
                let lsb = (arg % 256) as u8;
                let ghost before = buffer@;
                buffer.push(msb);
                buffer.push(lsb);
                proof {
                    let tail = encode_listing(sym, lst, dst, i + 1, di as int);
                    match tail {
                        Ok(t) => {
                            assert(buffer@.add(t) =~= before.add(pack_word(code, arg).add(t)));
                        },
                        Err(_) => {},
                    }
                    assert(target == prepend_bytes(buffer@, tail));
                }
            }
            i += 1;
        }
        proof {
            assert(encode_listing(sym, lst, dst, i as int, di as int) == Ok::<Seq<u8>, AsmErrorSpec>(
                Seq::<u8>::empty(),
            ));
            assert(buffer@.add(Seq::<u8>::empty()) =~= buffer@);
        }
        Ok(buffer)
    }

    /// Assembles a source text: tokenizes it, runs both passes, and yields
    /// the object bytes, or the first fatal error.
    pub fn run(lines: &Vec<String>) -> (r: Result<Vec<u8>, AsmError>)
        ensures
            match r {
                Ok(buf) => asm_spec(lines.deep_view()) == Ok::<Seq<u8>, AsmErrorSpec>(buf@),
                Err(e) => asm_spec(lines.deep_view()) == Err::<Seq<u8>, _>(e@),
            },
    {
        let mut assembler = Assembler::new();
        let statements = assembler.get_valid_statements(lines);
        match assembler.run_first_pass(&statements) {
            Err(e) => Err(e),
            Ok(()) => assembler.run_second_pass(),
        }
    }
}

} // verus!
