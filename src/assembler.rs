//! The assembler: text to `Program`.
//!
//! Each line loses its `;` comment and surrounding whitespace, then is one of:
//! blank; a `.const` directive, read by the constants pass; an inert
//! `name:` marker (one word ending in `:`); a `.name` label, bound to the number of instructions
//! before it; or an instruction, whose first word is the mnemonic and whose
//! second word, if any, the operand. Jump and call targets are labels,
//! resolved once every line has been read.
use vstd::prelude::*;

use crate::instruction::{ConstantIndex, ConstantValue, Opcode, Program, Value};
use crate::text::{
    after_first_word, before_comment, chars_of, collapse_range, copy_range, find_char,
    first_word, first_word_range, joined_words, lines_of, parse_i32, parse_i32_range,
    parse_unsigned, parse_unsigned_range, same_chars, second_word, skip_dots, string_of,
    strip_dots, trim, trim_range, word_end, word_len,
};

verus! {

/// Why a text could not be assembled.
#[derive(Debug, PartialEq, Clone)]
pub enum AsmError {
    /// A mnemonic that the instruction set does not have.
    UnknownInstruction(String),
    /// The mnemonic takes an operand and the line has none.
    MissingOperand(String),
    /// The operand is not a number of the kind the mnemonic takes.
    InvalidOperand(String),
    /// A jump or call names a label that no line declares.
    UnknownLabel(String),
    /// A `.const` line without a value (the cleaned line is given).
    MalformedConstant(String),
    /// A constant value that is no integer, float or quoted string.
    InvalidConstant(String),
}

pub enum AsmErrorView {
    UnknownInstruction(Seq<char>),
    MissingOperand(Seq<char>),
    InvalidOperand(Seq<char>),
    UnknownLabel(Seq<char>),
    MalformedConstant(Seq<char>),
    InvalidConstant(Seq<char>),
}

impl View for AsmError {
    type V = AsmErrorView;

    open spec fn view(&self) -> AsmErrorView {
        match self {
            AsmError::UnknownInstruction(s) => AsmErrorView::UnknownInstruction(s@),
            AsmError::MissingOperand(s) => AsmErrorView::MissingOperand(s@),
            AsmError::InvalidOperand(s) => AsmErrorView::InvalidOperand(s@),
            AsmError::UnknownLabel(s) => AsmErrorView::UnknownLabel(s@),
            AsmError::MalformedConstant(s) => AsmErrorView::MalformedConstant(s@),
            AsmError::InvalidConstant(s) => AsmErrorView::InvalidConstant(s@),
        }
    }
}

/// The instructions whose operand is a label.
#[derive(Clone, Copy, Debug, PartialEq, Eq, Structural)]
pub enum Target {
    Call,
    Jump,
    JumpIfZero,
    JumpIfNotZero,
}

/// What a line is.
pub enum LineKind {
    Blank,
    Constant,
    Marker,
    Label(Seq<char>),
    /// The mnemonic and the operand (empty when there is none).
    Instruction(Seq<char>, Seq<char>),
}

/// A line without its comment and the whitespace round what is left.
pub open spec fn clean(line: Seq<char>) -> Seq<char> {
    trim(before_comment(line))
}

pub open spec fn is_const_directive(c: Seq<char>) -> bool {
    c.len() >= 6 && c.take(6) == ".const"@
}

pub open spec fn classify(line: Seq<char>) -> LineKind {
    let c = clean(line);
    if c.len() == 0 {
        LineKind::Blank
    } else if is_const_directive(c) {
        LineKind::Constant
    } else if c.last() == ':' && word_len(c) == c.len() {
        LineKind::Marker
    } else if c[0] == '.' {
        LineKind::Label(strip_dots(c))
    } else {
        LineKind::Instruction(first_word(c), second_word(c))
    }
}

/// The instructions that take no operand, by mnemonic.
pub open spec fn nullary_op(m: Seq<char>) -> Option<Opcode> {
    if m == "ADD"@ {
        Some(Opcode::Add)
    } else if m == "SUB"@ {
        Some(Opcode::Subtract)
    } else if m == "MUL"@ {
        Some(Opcode::Multiply)
    } else if m == "DIV"@ {
        Some(Opcode::Divide)
    } else if m == "MOD"@ {
        Some(Opcode::Modulo)
    } else if m == "PRINT"@ {
        Some(Opcode::Print)
    } else if m == "EQ"@ {
        Some(Opcode::Equals)
    } else if m == "GT"@ {
        Some(Opcode::GreaterThan)
    } else if m == "GTE"@ {
        Some(Opcode::GreaterThanEqual)
    } else if m == "LT"@ {
        Some(Opcode::LessThan)
    } else if m == "LTE"@ {
        Some(Opcode::LessThanEqual)
    } else if m == "HALT"@ {
        Some(Opcode::Halt)
    } else if m == "RET"@ {
        Some(Opcode::Return)
    } else {
        None
    }
}

/// Whether `m` names an instruction on a local slot.
pub open spec fn is_local_mnemonic(m: Seq<char>) -> bool {
    m == "STORE_LOCAL"@ || m == "LOAD_LOCAL"@ || m == "INC"@
}

/// The instruction on local slot `n` that `m` names.
pub open spec fn local_op(m: Seq<char>, n: usize) -> Opcode {
    if m == "STORE_LOCAL"@ {
        Opcode::StoreLocal(n)
    } else if m == "LOAD_LOCAL"@ {
        Opcode::LoadLocal(n)
    } else {
        Opcode::Increment(n)
    }
}

/// The instructions whose operand is a label, by mnemonic.
pub open spec fn target_kind(m: Seq<char>) -> Option<Target> {
    if m == "JUMP"@ {
        Some(Target::Jump)
    } else if m == "CALL"@ {
        Some(Target::Call)
    } else if m == "JUMPZ"@ {
        Some(Target::JumpIfZero)
    } else if m == "JUMPNZ"@ {
        Some(Target::JumpIfNotZero)
    } else {
        None
    }
}

pub open spec fn target_op(t: Target, addr: usize) -> Opcode {
    match t {
        Target::Call => Opcode::Call(addr),
        Target::Jump => Opcode::Jump(addr),
        Target::JumpIfZero => Opcode::JumpIfZero(addr),
        Target::JumpIfNotZero => Opcode::JumpIfNotZero(addr),
    }
}

/// An instruction as the first pass leaves it.
pub enum Pending {
    Ready(Opcode),
    Labelled(Target, Seq<char>),
}

/// The instruction line with mnemonic `m` and operand `arg`, labels unresolved.
pub open spec fn decode(m: Seq<char>, arg: Seq<char>) -> Result<Pending, AsmErrorView> {
    if m == "PUSH_CONST"@ {
        if arg.len() == 0 {
            Err(AsmErrorView::MissingOperand(m))
        } else {
            match parse_unsigned(arg, u32::MAX as nat) {
                Some(n) => Ok(Pending::Ready(Opcode::Push(ConstantIndex(n as u32)))),
                None => Err(AsmErrorView::InvalidOperand(arg)),
            }
        }
    } else if is_local_mnemonic(m) {
        if arg.len() == 0 {
            Err(AsmErrorView::MissingOperand(m))
        } else {
            match parse_unsigned(arg, usize::MAX as nat) {
                Some(n) => Ok(Pending::Ready(local_op(m, n as usize))),
                None => Err(AsmErrorView::InvalidOperand(arg)),
            }
        }
    } else {
        match nullary_op(m) {
            Some(op) => Ok(Pending::Ready(op)),
            None => match target_kind(m) {
                Some(t) => if arg.len() == 0 {
                    Err(AsmErrorView::MissingOperand(m))
                } else {
                    Ok(Pending::Labelled(t, arg))
                },
                None => Err(AsmErrorView::UnknownInstruction(m)),
            },
        }
    }
}

/// What the first pass has gathered: the instructions so far, and each label
/// with the number of instructions before it, in order of declaration.
pub struct Scan {
    pub pending: Seq<Pending>,
    pub labels: Seq<(Seq<char>, nat)>,
}

/// The first pass over `lines`; it stops at the first line that fails.
pub open spec fn scan(lines: Seq<Seq<char>>) -> Result<Scan, AsmErrorView>
    decreases lines.len(),
{
    if lines.len() == 0 {
        Ok(Scan { pending: Seq::empty(), labels: Seq::empty() })
    } else {
        match scan(lines.drop_last()) {
            Err(e) => Err(e),
            Ok(st) => match classify(lines.last()) {
                LineKind::Label(name) => Ok(
                    Scan { pending: st.pending, labels: st.labels.push((name, st.pending.len())) },
                ),
                LineKind::Instruction(m, arg) => match decode(m, arg) {
                    Ok(p) => Ok(Scan { pending: st.pending.push(p), labels: st.labels }),
                    Err(e) => Err(e),
                },
                _ => Ok(st),
            },
        }
    }
}

/// The address of the last declaration of `name` in `labels`.
pub open spec fn lookup_label(labels: Seq<(Seq<char>, nat)>, name: Seq<char>) -> Option<nat>
    decreases labels.len(),
{
    if labels.len() == 0 {
        None
    } else if labels.last().0 == name {
        Some(labels.last().1)
    } else {
        lookup_label(labels.drop_last(), name)
    }
}

pub open spec fn resolve(p: Pending, labels: Seq<(Seq<char>, nat)>) -> Result<
    Opcode,
    AsmErrorView,
> {
    match p {
        Pending::Ready(op) => Ok(op),
        Pending::Labelled(t, name) => match lookup_label(labels, name) {
            Some(addr) => Ok(target_op(t, addr as usize)),
            None => Err(AsmErrorView::UnknownLabel(name)),
        },
    }
}

/// The second pass; it stops at the first label that is not declared.
pub open spec fn resolve_all(ps: Seq<Pending>, labels: Seq<(Seq<char>, nat)>) -> Result<
    Seq<Opcode>,
    AsmErrorView,
>
    decreases ps.len(),
{
    if ps.len() == 0 {
        Ok(Seq::empty())
    } else {
        match resolve_all(ps.drop_last(), labels) {
            Err(e) => Err(e),
            Ok(ops) => match resolve(ps.last(), labels) {
                Ok(op) => Ok(ops.push(op)),
                Err(e) => Err(e),
            },
        }
    }
}

/// The instructions that `text` assembles to.
pub open spec fn assemble_code(text: Seq<char>) -> Result<Seq<Opcode>, AsmErrorView> {
    match scan(lines_of(text)) {
        Err(e) => Err(e),
        Ok(st) => resolve_all(st.pending, st.labels),
    }
}

/// The value text of a cleaned `.const` line: its words after the second,
/// joined by single spaces.
pub open spec fn const_text(c: Seq<char>) -> Seq<char> {
    joined_words(after_first_word(after_first_word(c)))
}

/// The value texts of the `.const` lines, in order.
pub open spec fn const_texts(lines: Seq<Seq<char>>) -> Result<Seq<Seq<char>>, AsmErrorView>
    decreases lines.len(),
{
    if lines.len() == 0 {
        Ok(Seq::empty())
    } else {
        match const_texts(lines.drop_last()) {
            Err(e) => Err(e),
            Ok(ts) => if classify(lines.last()) is Constant {
                let c = clean(lines.last());
                if const_text(c).len() == 0 {
                    Err(AsmErrorView::MalformedConstant(c))
                } else {
                    Ok(ts.push(const_text(c)))
                }
            } else {
                Ok(ts)
            },
        }
    }
}

/// The constant that `text` writes: an `i32`; else the float `float`, the
/// host's reading of `text` as a 32-bit float, if it has one; else a string
/// between double quotes, without them.
pub open spec fn const_value(text: Seq<char>, float: Option<u32>) -> Result<Value, AsmErrorView> {
    match parse_i32(text) {
        Some(n) => Ok(Value::Int(n)),
        None => match float {
            Some(bits) => Ok(Value::Float(bits)),
            None => if text.len() >= 2 && text[0] == '"' && text.last() == '"' {
                Ok(Value::Str(text.subrange(1, text.len() - 1)))
            } else {
                Err(AsmErrorView::InvalidConstant(text))
            },
        },
    }
}

/// The float reading that the host supplies for constant `i`; none past the end.
pub open spec fn float_at(floats: Seq<Option<u32>>, i: int) -> Option<u32> {
    if 0 <= i < floats.len() {
        floats[i]
    } else {
        None
    }
}

/// The constant pool of the value texts `texts`.
pub open spec fn pool(texts: Seq<Seq<char>>, floats: Seq<Option<u32>>) -> Result<
    Seq<Value>,
    AsmErrorView,
>
    decreases texts.len(),
{
    if texts.len() == 0 {
        Ok(Seq::empty())
    } else {
        match pool(texts.drop_last(), floats) {
            Err(e) => Err(e),
            Ok(vs) => match const_value(texts.last(), float_at(floats, texts.len() - 1)) {
                Ok(v) => Ok(vs.push(v)),
                Err(e) => Err(e),
            },
        }
    }
}

/// The constant pool that `text` declares.
pub open spec fn assemble_constants(text: Seq<char>, floats: Seq<Option<u32>>) -> Result<
    Seq<Value>,
    AsmErrorView,
> {
    match const_texts(lines_of(text)) {
        Err(e) => Err(e),
        Ok(ts) => pool(ts, floats),
    }
}

/// The instructions and the constant pool that `text` assembles to; errors
/// in the instructions come before errors in the constants.
pub open spec fn assemble(text: Seq<char>, floats: Seq<Option<u32>>) -> Result<
    (Seq<Opcode>, Seq<Value>),
    AsmErrorView,
> {
    match assemble_code(text) {
        Err(e) => Err(e),
        Ok(code) => match assemble_constants(text, floats) {
            Err(e) => Err(e),
            Ok(pool) => Ok((code, pool)),
        },
    }
}

/// The lines of `v`, as ranges.
fn line_ranges(v: &Vec<char>) -> (r: Vec<(usize, usize)>)
    ensures
        r@.len() == lines_of(v@).len(),
        forall|k: int| 0 <= k < r@.len() ==> #[trigger] r@[k].0 <= r@[k].1 <= v@.len(),
        forall|k: int|
            0 <= k < r@.len() ==> v@.subrange(r@[k].0 as int, r@[k].1 as int) == #[trigger] lines_of(
                v@,
            )[k],
{
    let n = v.len();
    let mut r: Vec<(usize, usize)> = Vec::new();
    let ghost mut done: Seq<Seq<char>> = Seq::empty();
    let mut i: usize = 0;
    assert(v@.subrange(0, n as int) =~= v@);
    assert(done + lines_of(v@) =~= lines_of(v@));
    while i < n
        invariant
            n == v@.len(),
            i <= n,
            lines_of(v@) == done + lines_of(v@.subrange(i as int, n as int)),
            r@.len() == done.len(),
            forall|k: int| 0 <= k < r@.len() ==> #[trigger] r@[k].0 <= r@[k].1 <= n,
            forall|k: int|
                0 <= k < r@.len() ==> v@.subrange(r@[k].0 as int, r@[k].1 as int)
                    == #[trigger] done[k],
        decreases n - i,
    {
        let j = find_char(v, i, n, '\n');
        let ghost s = v@.subrange(i as int, n as int);
        assert(s.take(j - i) =~= v@.subrange(i as int, j as int));
        let ghost old_r = r@;
        r.push((i, j));
        proof {
            let old_done = done;
            done = done.push(v@.subrange(i as int, j as int));
            assert forall|k: int| 0 <= k < r@.len() implies #[trigger] r@[k].0 <= r@[k].1 <= n by {
                if k < r@.len() - 1 {
                    assert(r@[k] == old_r[k]);
                }
            }
            assert forall|k: int| 0 <= k < r@.len() implies v@.subrange(
                r@[k].0 as int,
                r@[k].1 as int,
            ) == #[trigger] done[k] by {
                if k < r@.len() - 1 {
                    assert(r@[k] == old_r[k]);
                    assert(done[k] == old_done[k]);
                }
            }
        }
        if j < n {
            assert(s.skip(j - i + 1) =~= v@.subrange(j + 1, n as int));
            assert(lines_of(v@) =~= done + lines_of(v@.subrange(j + 1, n as int)));
            i = j + 1;
        } else {
            assert(lines_of(v@.subrange(n as int, n as int)) =~= Seq::<Seq<char>>::empty());
            assert(lines_of(v@) =~= done + lines_of(v@.subrange(n as int, n as int)));
            i = n;
        }
    }
    assert(lines_of(v@.subrange(n as int, n as int)) =~= Seq::<Seq<char>>::empty());
    assert(lines_of(v@) =~= done);
    r
}

/// Whether `[a, b)` of `v` holds exactly the characters of `w`.
fn range_is(v: &Vec<char>, a: usize, b: usize, w: &Vec<char>) -> (r: bool)
    requires
        a <= b <= v@.len(),
    ensures
        r == (v@.subrange(a as int, b as int) == w@),
{
    let part = copy_range(v, a, b);
    same_chars(&part, w)
}

/// Whether `m` spells `w`.
fn is_word(m: &Vec<char>, w: &str) -> (r: bool)
    ensures
        r == (m@ == w@),
{
    let cs = chars_of(w);
    same_chars(m, &cs)
}

/// A line as ranges of the text.
enum LineShape {
    Blank,
    Constant(usize, usize),
    Marker,
    Label(usize, usize),
    Instruction(usize, usize, usize, usize),
}

fn classify_line(v: &Vec<char>, a: usize, b: usize) -> (r: LineShape)
    requires
        a <= b <= v@.len(),
    ensures
        ({
            let line = v@.subrange(a as int, b as int);
            match r {
                LineShape::Blank => classify(line) is Blank,
                LineShape::Constant(x, y) => classify(line) is Constant && x <= y <= v@.len()
                    && v@.subrange(x as int, y as int) == clean(line),
                LineShape::Marker => classify(line) is Marker,
                LineShape::Label(x, y) => x <= y <= v@.len() && classify(line) == LineKind::Label(
                    v@.subrange(x as int, y as int),
                ),
                LineShape::Instruction(p, q, s, t) => p <= q <= v@.len() && s <= t <= v@.len()
                    && classify(line) == LineKind::Instruction(
                    v@.subrange(p as int, q as int),
                    v@.subrange(s as int, t as int),
                ),
            }
        }),
{
    let e = find_char(v, a, b, ';');
    let (x, y) = trim_range(v, a, e);
    let ghost c = v@.subrange(x as int, y as int);
    if x == y {
        return LineShape::Blank;
    }
    let directive = chars_of(".const");
    if y - x >= 6 && range_is(v, x, x + 6, &directive) {
        assert(c.take(6) =~= v@.subrange(x as int, x + 6));
        return LineShape::Constant(x, y);
    }
    proof {
        if c.len() >= 6 {
            assert(c.take(6) =~= v@.subrange(x as int, x + 6));
        }
    }
    if v[y - 1] == ':' && word_end(v, x, y) == y {
        return LineShape::Marker;
    }
    if v[x] == '.' {
        let d = skip_dots(v, x, y);
        return LineShape::Label(d, y);
    }
    let (p, q) = first_word_range(v, x, y);
    let (s, t) = first_word_range(v, q, y);
    LineShape::Instruction(p, q, s, t)
}

/// An instruction as the first pass leaves it.
enum Unresolved {
    Resolved(Opcode),
    Labelled(Target, Vec<char>),
}

impl View for Unresolved {
    type V = Pending;

    closed spec fn view(&self) -> Pending {
        match self {
            Unresolved::Resolved(op) => Pending::Ready(*op),
            Unresolved::Labelled(t, name) => Pending::Labelled(*t, name@),
        }
    }
}

fn nullary_exec(m: &Vec<char>) -> (r: Option<Opcode>)
    ensures
        r == nullary_op(m@),
{
    if is_word(m, "ADD") {
        Some(Opcode::Add)
    } else if is_word(m, "SUB") {
        Some(Opcode::Subtract)
    } else if is_word(m, "MUL") {
        Some(Opcode::Multiply)
    } else if is_word(m, "DIV") {
        Some(Opcode::Divide)
    } else if is_word(m, "MOD") {
        Some(Opcode::Modulo)
    } else if is_word(m, "PRINT") {
        Some(Opcode::Print)
    } else if is_word(m, "EQ") {
        Some(Opcode::Equals)
    } else if is_word(m, "GT") {
        Some(Opcode::GreaterThan)
    } else if is_word(m, "GTE") {
        Some(Opcode::GreaterThanEqual)
    } else if is_word(m, "LT") {
        Some(Opcode::LessThan)
    } else if is_word(m, "LTE") {
        Some(Opcode::LessThanEqual)
    } else if is_word(m, "HALT") {
        Some(Opcode::Halt)
    } else if is_word(m, "RET") {
        Some(Opcode::Return)
    } else {
        None
    }
}

fn target_exec(m: &Vec<char>) -> (r: Option<Target>)
    ensures
        r == target_kind(m@),
{
    if is_word(m, "JUMP") {
        Some(Target::Jump)
    } else if is_word(m, "CALL") {
        Some(Target::Call)
    } else if is_word(m, "JUMPZ") {
        Some(Target::JumpIfZero)
    } else if is_word(m, "JUMPNZ") {
        Some(Target::JumpIfNotZero)
    } else {
        None
    }
}

fn decode_exec(v: &Vec<char>, p: usize, q: usize, s: usize, t: usize) -> (r: Result<
    Unresolved,
    AsmError,
>)
    requires
        p <= q <= v@.len(),
        s <= t <= v@.len(),
    ensures
        ({
            let d = decode(v@.subrange(p as int, q as int), v@.subrange(s as int, t as int));
            &&& r matches Ok(u) ==> d == Ok::<Pending, AsmErrorView>(u@)
            &&& r matches Err(e) ==> d == Err::<Pending, AsmErrorView>(e@)
        }),
{
    let m = copy_range(v, p, q);
    let ghost arg = v@.subrange(s as int, t as int);
    if is_word(&m, "PUSH_CONST") {
        if s == t {
            return Err(AsmError::MissingOperand(string_of(v, p, q)));
        }
        match parse_unsigned_range(v, s, t, 0xffff_ffff) {
            Some(n) => Ok(Unresolved::Resolved(Opcode::Push(ConstantIndex(n as u32)))),
            None => Err(AsmError::InvalidOperand(string_of(v, s, t))),
        }
    } else if is_word(&m, "STORE_LOCAL") || is_word(&m, "LOAD_LOCAL") || is_word(&m, "INC") {
        if s == t {
            return Err(AsmError::MissingOperand(string_of(v, p, q)));
        }
        match parse_unsigned_range(v, s, t, usize::MAX as u64) {
            Some(n) => {
                let k = n as usize;
                let op = if is_word(&m, "STORE_LOCAL") {
                    Opcode::StoreLocal(k)
                } else if is_word(&m, "LOAD_LOCAL") {
                    Opcode::LoadLocal(k)
                } else {
                    Opcode::Increment(k)
                };
                Ok(Unresolved::Resolved(op))
            },
            None => Err(AsmError::InvalidOperand(string_of(v, s, t))),
        }
    } else {
        match nullary_exec(&m) {
            Some(op) => Ok(Unresolved::Resolved(op)),
            None => match target_exec(&m) {
                Some(tk) => if s == t {
                    Err(AsmError::MissingOperand(string_of(v, p, q)))
                } else {
                    Ok(Unresolved::Labelled(tk, copy_range(v, s, t)))
                },
                None => Err(AsmError::UnknownInstruction(string_of(v, p, q))),
            },
        }
    }
}

pub open spec fn labels_view(labels: Seq<(Vec<char>, usize)>) -> Seq<(Seq<char>, nat)> {
    labels.map_values(|e: (Vec<char>, usize)| (e.0@, e.1 as nat))
}

/// The address of the last declaration of `name`.
fn find_label(labels: &Vec<(Vec<char>, usize)>, name: &Vec<char>) -> (r: Option<usize>)
    ensures
        r matches Some(a) ==> lookup_label(labels_view(labels@), name@) == Some(a as nat),
        r is None ==> lookup_label(labels_view(labels@), name@) is None,
{
    let ghost all = labels_view(labels@);
    let mut k = labels.len();
    assert(all.take(k as int) =~= all);
    while k > 0
        invariant
            k <= labels@.len(),
            all == labels_view(labels@),
            lookup_label(all, name@) == lookup_label(all.take(k as int), name@),
        decreases k,
    {
        let ghost part = all.take(k as int);
        assert(part.drop_last() =~= all.take(k - 1));
        if same_chars(&labels[k - 1].0, name) {
            return Some(labels[k - 1].1);
        }
        k = k - 1;
    }
    None
}

/// The first pass: the instructions with their labels unresolved, and the labels.
fn scan_lines(v: &Vec<char>, lines: &Vec<(usize, usize)>) -> (r: Result<
    (Vec<Unresolved>, Vec<(Vec<char>, usize)>),
    AsmError,
>)
    requires
        lines@.len() == lines_of(v@).len(),
        forall|k: int| 0 <= k < lines@.len() ==> #[trigger] lines@[k].0 <= lines@[k].1 <= v@.len(),
        forall|k: int|
            0 <= k < lines@.len() ==> v@.subrange(lines@[k].0 as int, lines@[k].1 as int)
                == #[trigger] lines_of(v@)[k],
    ensures
        r matches Ok((ps, ls)) ==> scan(lines_of(v@)) == Ok::<Scan, AsmErrorView>(
            Scan { pending: ps@.map_values(|u: Unresolved| u@), labels: labels_view(ls@) },
        ),
        r matches Err(e) ==> scan(lines_of(v@)) == Err::<Scan, AsmErrorView>(e@),
{
    let ghost all = lines_of(v@);
    let mut pending: Vec<Unresolved> = Vec::new();
    let mut labels: Vec<(Vec<char>, usize)> = Vec::new();
    let mut k: usize = 0;
    assert(all.take(0) =~= Seq::<Seq<char>>::empty());
    assert(pending@.map_values(|u: Unresolved| u@) =~= Seq::<Pending>::empty());
    assert(labels_view(labels@) =~= Seq::<(Seq<char>, nat)>::empty());
    while k < lines.len()
        invariant
            all == lines_of(v@),
            lines@.len() == all.len(),
            k <= lines@.len(),
            forall|k: int| 0 <= k < lines@.len() ==> #[trigger] lines@[k].0 <= lines@[k].1 <= v@.len(),
            forall|k: int|
                0 <= k < lines@.len() ==> v@.subrange(lines@[k].0 as int, lines@[k].1 as int)
                    == #[trigger] lines_of(v@)[k],
            pending@.len() <= k,
            scan(all.take(k as int)) == Ok::<Scan, AsmErrorView>(
                Scan {
                    pending: pending@.map_values(|u: Unresolved| u@),
                    labels: labels_view(labels@),
                },
            ),
        decreases lines@.len() - k,
    {
        let (a, b) = lines[k];
        assert(all.take(k + 1).drop_last() =~= all.take(k as int));
        assert(all.take(k + 1).last() == all[k as int]);
        let ghost before = labels_view(labels@);
        let ghost before_p = pending@.map_values(|u: Unresolved| u@);
        match classify_line(v, a, b) {
            LineShape::Label(x, y) => {
                let name = copy_range(v, x, y);
                labels.push((name, pending.len()));
                assert(labels_view(labels@) =~= before.push((v@.subrange(x as int, y as int), before_p.len())));
            },
            LineShape::Instruction(p, q, s, t) => {
                match decode_exec(v, p, q, s, t) {
                    Ok(u) => {
                        pending.push(u);
                        assert(pending@.map_values(|u: Unresolved| u@) =~= before_p.push(u@));
                    },
                    Err(e) => {
                        proof {
                            lemma_scan_err_stays(all, k as int + 1);
                        }
                        return Err(e);
                    },
                }
            },
            _ => {},
        }
        k = k + 1;
    }
    assert(all.take(k as int) =~= all);
    Ok((pending, labels))
}

/// Once the first pass fails on a line, later lines do not change the outcome.
proof fn lemma_scan_err_stays(lines: Seq<Seq<char>>, k: int)
    requires
        0 <= k <= lines.len(),
        scan(lines.take(k)) is Err,
    ensures
        scan(lines) == scan(lines.take(k)),
    decreases lines.len() - k,
{
    if k < lines.len() {
        let longer = lines.take(k + 1);
        assert(longer.drop_last() =~= lines.take(k));
        lemma_scan_err_stays(lines, k + 1);
    } else {
        assert(lines.take(k) =~= lines);
    }
}

/// The second pass: each label replaced by its address.
fn resolve_labels(pending: &Vec<Unresolved>, labels: &Vec<(Vec<char>, usize)>) -> (r: Result<
    Vec<Opcode>,
    AsmError,
>)
    ensures
        ({
            let d = resolve_all(pending@.map_values(|u: Unresolved| u@), labels_view(labels@));
            &&& r matches Ok(ops) ==> d == Ok::<Seq<Opcode>, AsmErrorView>(ops@)
            &&& r matches Err(e) ==> d == Err::<Seq<Opcode>, AsmErrorView>(e@)
        }),
{
    let ghost ps = pending@.map_values(|u: Unresolved| u@);
    let ghost lv = labels_view(labels@);
    let mut ops: Vec<Opcode> = Vec::new();
    let mut k: usize = 0;
    assert(ps.take(0) =~= Seq::<Pending>::empty());
    while k < pending.len()
        invariant
            ps == pending@.map_values(|u: Unresolved| u@),
            lv == labels_view(labels@),
            k <= pending@.len(),
            resolve_all(ps.take(k as int), lv) == Ok::<Seq<Opcode>, AsmErrorView>(ops@),
        decreases pending@.len() - k,
    {
        assert(ps.take(k + 1).drop_last() =~= ps.take(k as int));
        assert(ps.take(k + 1).last() == pending@[k as int]@);
        let op = match &pending[k] {
            Unresolved::Resolved(op) => *op,
            Unresolved::Labelled(t, name) => match find_label(labels, name) {
                Some(addr) => match t {
                    Target::Call => Opcode::Call(addr),
                    Target::Jump => Opcode::Jump(addr),
                    Target::JumpIfZero => Opcode::JumpIfZero(addr),
                    Target::JumpIfNotZero => Opcode::JumpIfNotZero(addr),
                },
                None => {
                    let n = name.len();
                    let text = string_of(name, 0, n);
                    assert(name@.subrange(0, n as int) =~= name@);
                    proof {
                        lemma_resolve_err_stays(ps, lv, k as int + 1);
                    }
                    return Err(AsmError::UnknownLabel(text));
                },
            },
        };
        ops.push(op);
        k = k + 1;
    }
    assert(ps.take(k as int) =~= ps);
    Ok(ops)
}

/// Once the second pass fails on an instruction, later ones do not change the outcome.
proof fn lemma_resolve_err_stays(ps: Seq<Pending>, labels: Seq<(Seq<char>, nat)>, k: int)
    requires
        0 <= k <= ps.len(),
        resolve_all(ps.take(k), labels) is Err,
    ensures
        resolve_all(ps, labels) == resolve_all(ps.take(k), labels),
    decreases ps.len() - k,
{
    if k < ps.len() {
        assert(ps.take(k + 1).drop_last() =~= ps.take(k));
        lemma_resolve_err_stays(ps, labels, k + 1);
    } else {
        assert(ps.take(k) =~= ps);
    }
}

fn code_of(v: &Vec<char>, lines: &Vec<(usize, usize)>) -> (r: Result<Vec<Opcode>, AsmError>)
    requires
        lines@.len() == lines_of(v@).len(),
        forall|k: int| 0 <= k < lines@.len() ==> #[trigger] lines@[k].0 <= lines@[k].1 <= v@.len(),
        forall|k: int|
            0 <= k < lines@.len() ==> v@.subrange(lines@[k].0 as int, lines@[k].1 as int)
                == #[trigger] lines_of(v@)[k],
    ensures
        r matches Ok(ops) ==> assemble_code(v@) == Ok::<Seq<Opcode>, AsmErrorView>(ops@),
        r matches Err(e) ==> assemble_code(v@) == Err::<Seq<Opcode>, AsmErrorView>(e@),
{
    match scan_lines(v, lines) {
        Err(e) => Err(e),
        Ok((pending, labels)) => resolve_labels(&pending, &labels),
    }
}

/// Assembles the instructions of `source`: the first pass reads every line and
/// records each label; the second replaces each label operand by its address.
pub fn parse_opcodes_with_labels(source: &str) -> (r: Result<Vec<Opcode>, AsmError>)
    ensures
        r matches Ok(ops) ==> assemble_code(source@) == Ok::<Seq<Opcode>, AsmErrorView>(ops@),
        r matches Err(e) ==> assemble_code(source@) == Err::<Seq<Opcode>, AsmErrorView>(e@),
{
    let v = chars_of(source);
    let lines = line_ranges(&v);
    code_of(&v, &lines)
}

pub open spec fn texts_view(ts: Seq<Vec<char>>) -> Seq<Seq<char>> {
    ts.map_values(|t: Vec<char>| t@)
}

/// The value texts of the `.const` lines, in order.
fn const_texts_of(v: &Vec<char>, lines: &Vec<(usize, usize)>) -> (r: Result<
    Vec<Vec<char>>,
    AsmError,
>)
    requires
        lines@.len() == lines_of(v@).len(),
        forall|k: int| 0 <= k < lines@.len() ==> #[trigger] lines@[k].0 <= lines@[k].1 <= v@.len(),
        forall|k: int|
            0 <= k < lines@.len() ==> v@.subrange(lines@[k].0 as int, lines@[k].1 as int)
                == #[trigger] lines_of(v@)[k],
    ensures
        r matches Ok(ts) ==> const_texts(lines_of(v@)) == Ok::<Seq<Seq<char>>, AsmErrorView>(
            texts_view(ts@),
        ),
        r matches Err(e) ==> const_texts(lines_of(v@)) == Err::<Seq<Seq<char>>, AsmErrorView>(
            e@,
        ),
{
    let ghost all = lines_of(v@);
    let mut texts: Vec<Vec<char>> = Vec::new();
    let mut k: usize = 0;
    assert(all.take(0) =~= Seq::<Seq<char>>::empty());
    assert(texts_view(texts@) =~= Seq::<Seq<char>>::empty());
    while k < lines.len()
        invariant
            all == lines_of(v@),
            lines@.len() == all.len(),
            k <= lines@.len(),
            forall|k: int| 0 <= k < lines@.len() ==> #[trigger] lines@[k].0 <= lines@[k].1 <= v@.len(),
            forall|k: int|
                0 <= k < lines@.len() ==> v@.subrange(lines@[k].0 as int, lines@[k].1 as int)
                    == #[trigger] lines_of(v@)[k],
            const_texts(all.take(k as int)) == Ok::<Seq<Seq<char>>, AsmErrorView>(
                texts_view(texts@),
            ),
        decreases lines@.len() - k,
    {
        let (a, b) = lines[k];
        assert(all.take(k + 1).drop_last() =~= all.take(k as int));
        assert(all.take(k + 1).last() == all[k as int]);
        let ghost before = texts_view(texts@);
        match classify_line(v, a, b) {
            LineShape::Constant(x, y) => {
                let (_, q1) = first_word_range(v, x, y);
                let (_, q2) = first_word_range(v, q1, y);
                let (s, t) = trim_range(v, q2, y);
                let text = collapse_range(v, s, t);
                if text.len() == 0 {
                    proof {
                        lemma_texts_err_stays(all, k as int + 1);
                    }
                    return Err(AsmError::MalformedConstant(string_of(v, x, y)));
                }
                texts.push(text);
                assert(texts_view(texts@) =~= before.push(texts@.last()@));
            },
            _ => {},
        }
        k = k + 1;
    }
    assert(all.take(k as int) =~= all);
    Ok(texts)
}

/// Once the constants pass fails on a line, later lines do not change the outcome.
proof fn lemma_texts_err_stays(lines: Seq<Seq<char>>, k: int)
    requires
        0 <= k <= lines.len(),
        const_texts(lines.take(k)) is Err,
    ensures
        const_texts(lines) == const_texts(lines.take(k)),
    decreases lines.len() - k,
{
    if k < lines.len() {
        assert(lines.take(k + 1).drop_last() =~= lines.take(k));
        lemma_texts_err_stays(lines, k + 1);
    } else {
        assert(lines.take(k) =~= lines);
    }
}

/// The constant that `text` writes, given the host's reading of it as a float.
fn const_value_of(text: &Vec<char>, float: Option<u32>) -> (r: Result<ConstantValue, AsmError>)
    ensures
        r matches Ok(c) ==> const_value(text@, float) == Ok::<Value, AsmErrorView>(c@),
        r matches Err(e) ==> const_value(text@, float) == Err::<Value, AsmErrorView>(e@),
{
    let n = text.len();
    assert(text@.subrange(0, n as int) =~= text@);
    match parse_i32_range(text, 0, n) {
        Some(x) => Ok(ConstantValue::Int(x)),
        None => match float {
            Some(bits) => Ok(ConstantValue::Float(bits)),
            None => if n >= 2 && text[0] == '"' && text[n - 1] == '"' {
                Ok(ConstantValue::Str(string_of(text, 1, n - 1)))
            } else {
                Err(AsmError::InvalidConstant(string_of(text, 0, n)))
            },
        },
    }
}

/// The constant pool of the value texts `texts`.
fn pool_of(texts: &Vec<Vec<char>>, floats: &Vec<Option<u32>>) -> (r: Result<
    Vec<ConstantValue>,
    AsmError,
>)
    ensures
        r matches Ok(cs) ==> pool(texts_view(texts@), floats@) == Ok::<Seq<Value>, AsmErrorView>(
            cs@.map_values(|c: ConstantValue| c@),
        ),
        r matches Err(e) ==> pool(texts_view(texts@), floats@) == Err::<Seq<Value>, AsmErrorView>(
            e@,
        ),
{
    let ghost ts = texts_view(texts@);
    let mut pool_vals: Vec<ConstantValue> = Vec::new();
    let mut k: usize = 0;
    assert(ts.take(0) =~= Seq::<Seq<char>>::empty());
    assert(pool_vals@.map_values(|c: ConstantValue| c@) =~= Seq::<Value>::empty());
    while k < texts.len()
        invariant
            ts == texts_view(texts@),
            k <= texts@.len(),
            pool(ts.take(k as int), floats@) == Ok::<Seq<Value>, AsmErrorView>(
                pool_vals@.map_values(|c: ConstantValue| c@),
            ),
        decreases texts@.len() - k,
    {
        assert(ts.take(k + 1).drop_last() =~= ts.take(k as int));
        assert(ts.take(k + 1).last() == texts@[k as int]@);
        let float = if k < floats.len() {
            floats[k]
        } else {
            None
        };
        let ghost before = pool_vals@.map_values(|c: ConstantValue| c@);
        match const_value_of(&texts[k], float) {
            Ok(c) => {
                pool_vals.push(c);
                assert(pool_vals@.map_values(|c: ConstantValue| c@) =~= before.push(
                    pool_vals@.last()@,
                ));
            },
            Err(e) => {
                proof {
                    lemma_pool_err_stays(ts, floats@, k as int + 1);
                }
                return Err(e);
            },
        }
        k = k + 1;
    }
    assert(ts.take(k as int) =~= ts);
    Ok(pool_vals)
}

/// Once a constant fails, later ones do not change the outcome.
proof fn lemma_pool_err_stays(texts: Seq<Seq<char>>, floats: Seq<Option<u32>>, k: int)
    requires
        0 <= k <= texts.len(),
        pool(texts.take(k), floats) is Err,
    ensures
        pool(texts, floats) == pool(texts.take(k), floats),
    decreases texts.len() - k,
{
    if k < texts.len() {
        assert(texts.take(k + 1).drop_last() =~= texts.take(k));
        lemma_pool_err_stays(texts, floats, k + 1);
    } else {
        assert(texts.take(k) =~= texts);
    }
}

/// The value text of each `.const` line of `source`, in order: the host reads
/// each as a float and hands the readings to `parse_constants` or
/// `parse_assembly`.
pub fn constant_texts(source: &str) -> (r: Result<Vec<String>, AsmError>)
    ensures
        r matches Ok(ts) ==> const_texts(lines_of(source@)) == Ok::<
            Seq<Seq<char>>,
            AsmErrorView,
        >(ts@.map_values(|t: String| t@)),
        r matches Err(e) ==> const_texts(lines_of(source@)) == Err::<
            Seq<Seq<char>>,
            AsmErrorView,
        >(e@),
{
    let v = chars_of(source);
    let lines = line_ranges(&v);
    let texts = match const_texts_of(&v, &lines) {
        Ok(ts) => ts,
        Err(e) => return Err(e),
    };
    let mut out: Vec<String> = Vec::new();
    let mut k: usize = 0;
    while k < texts.len()
        invariant
            k <= texts@.len(),
            out@.len() == k,
            forall|i: int| 0 <= i < k ==> #[trigger] out@[i]@ == texts@[i]@,
        decreases texts@.len() - k,
    {
        let n = texts[k].len();
        let s = string_of(&texts[k], 0, n);
        assert(texts@[k as int]@.subrange(0, n as int) =~= texts@[k as int]@);
        out.push(s);
        k = k + 1;
    }
    assert(out@.map_values(|t: String| t@) =~= texts_view(texts@));
    Ok(out)
}

/// The constant that `value` writes: an `i32`; else, when `float` holds the
/// host's reading of `value` as a 32-bit float, that float; else a string
/// between double quotes.
pub fn parse_const_value(value: &str, float: Option<u32>) -> (r: Result<ConstantValue, AsmError>)
    ensures
        r matches Ok(c) ==> const_value(value@, float) == Ok::<Value, AsmErrorView>(c@),
        r matches Err(e) ==> const_value(value@, float) == Err::<Value, AsmErrorView>(e@),
{
    let v = chars_of(value);
    const_value_of(&v, float)
}

/// The constant pool of `source`, in the order of its `.const` lines;
/// `floats[i]` is the host's reading of the `i`-th value text as a float.
pub fn parse_constants(source: &str, floats: &Vec<Option<u32>>) -> (r: Result<
    Vec<ConstantValue>,
    AsmError,
>)
    ensures
        r matches Ok(cs) ==> assemble_constants(source@, floats@) == Ok::<Seq<Value>, AsmErrorView>(
            cs@.map_values(|c: ConstantValue| c@),
        ),
        r matches Err(e) ==> assemble_constants(source@, floats@) == Err::<
            Seq<Value>,
            AsmErrorView,
        >(e@),
{
    let v = chars_of(source);
    let lines = line_ranges(&v);
    match const_texts_of(&v, &lines) {
        Ok(ts) => pool_of(&ts, floats),
        Err(e) => Err(e),
    }
}

/// Assembles `source` into a program that starts at its first instruction;
/// `floats[i]` is the host's reading of the `i`-th constant's value text as
/// a float.
pub fn parse_assembly(source: &str, floats: &Vec<Option<u32>>) -> (r: Result<Program, AsmError>)
    ensures
        r matches Ok(p) ==> p.entry == 0 && assemble(source@, floats@) == Ok::<
            (Seq<Opcode>, Seq<Value>),
            AsmErrorView,
        >((p@.code, p@.constants)),
        r matches Err(e) ==> assemble(source@, floats@) == Err::<
            (Seq<Opcode>, Seq<Value>),
            AsmErrorView,
        >(e@),
{
    let v = chars_of(source);
    let lines = line_ranges(&v);
    let code = match code_of(&v, &lines) {
        Ok(c) => c,
        Err(e) => return Err(e),
    };
    let constants = match const_texts_of(&v, &lines) {
        Ok(ts) => match pool_of(&ts, floats) {
            Ok(cs) => cs,
            Err(e) => return Err(e),
        },
        Err(e) => return Err(e),
    };
    Ok(Program { entry: 0, code, constants })
}

/// Number of instruction lines in `lines`.
pub open spec fn instruction_count(lines: Seq<Seq<char>>) -> nat
    decreases lines.len(),
{
    if lines.len() == 0 {
        0
    } else if classify(lines.last()) is Instruction {
        instruction_count(lines.drop_last()) + 1
    } else {
        instruction_count(lines.drop_last())
    }
}

/// Number of `.const` lines in `lines`.
pub open spec fn constant_count(lines: Seq<Seq<char>>) -> nat
    decreases lines.len(),
{
    if lines.len() == 0 {
        0
    } else if classify(lines.last()) is Constant {
        constant_count(lines.drop_last()) + 1
    } else {
        constant_count(lines.drop_last())
    }
}

/// The first pass emits one instruction per instruction line.
proof fn lemma_pending_count(lines: Seq<Seq<char>>)
    requires
        scan(lines) is Ok,
    ensures
        scan(lines)->Ok_0.pending.len() == instruction_count(lines),
    decreases lines.len(),
{
    if lines.len() > 0 {
        lemma_pending_count(lines.drop_last());
    }
}

/// An inert `name:` marker line, put anywhere among the lines, changes
/// neither the instructions, nor the labels, nor the constants.
pub proof fn lemma_marker_is_inert(lines: Seq<Seq<char>>, k: int, marker: Seq<char>)
    requires
        0 <= k <= lines.len(),
        classify(marker) is Marker,
    ensures
        scan(lines.insert(k, marker)) == scan(lines),
        const_texts(lines.insert(k, marker)) == const_texts(lines),
    decreases lines.len(),
{
    let with = lines.insert(k, marker);
    if k == lines.len() {
        assert(with.drop_last() =~= lines);
    } else {
        lemma_marker_is_inert(lines.drop_last(), k, marker);
        assert(with.drop_last() =~= lines.drop_last().insert(k, marker));
        assert(with.last() == lines.last());
    }
}

/// A `.name` label that no later line declares again resolves to the number
/// of instruction lines before it.
pub proof fn lemma_label_address(lines: Seq<Seq<char>>, k: int, name: Seq<char>)
    requires
        0 <= k < lines.len(),
        classify(lines[k]) == LineKind::Label(name),
        forall|j: int| k < j < lines.len() ==> classify(lines[j]) != LineKind::Label(name),
        scan(lines) is Ok,
    ensures
        lookup_label(scan(lines)->Ok_0.labels, name) == Some(instruction_count(lines.take(k))),
    decreases lines.len(),
{
    let prev = lines.drop_last();
    assert(scan(prev) is Ok);
    let st = scan(prev)->Ok_0;
    if k == lines.len() - 1 {
        assert(lines.take(k) =~= prev);
        lemma_pending_count(prev);
        assert(scan(lines)->Ok_0.labels == st.labels.push((name, st.pending.len())));
    } else {
        if let LineKind::Label(other) = classify(lines.last()) {
            let pushed = st.labels.push((other, st.pending.len()));
            assert(pushed.drop_last() =~= st.labels);
            assert(scan(lines)->Ok_0.labels == pushed);
        }
        assert forall|j: int| k < j < prev.len() implies classify(prev[j]) != LineKind::Label(
            name,
        ) by {
            assert(prev[j] == lines[j]);
        }
        assert(prev[k] == lines[k]);
        lemma_label_address(prev, k, name);
        assert(prev.take(k) =~= lines.take(k));
        assert(classify(lines.last()) != LineKind::Label(name));
    }
}

/// Constant-pool entry `i` comes from the `.const` line with `i` such lines
/// before it: its value text is that line's.
pub proof fn lemma_constant_position(lines: Seq<Seq<char>>, k: int)
    requires
        0 <= k < lines.len(),
        classify(lines[k]) is Constant,
        const_texts(lines) is Ok,
    ensures
        constant_count(lines.take(k)) < const_texts(lines)->Ok_0.len(),
        const_texts(lines)->Ok_0[constant_count(lines.take(k)) as int] == const_text(
            clean(lines[k]),
        ),
        const_texts(lines)->Ok_0.len() == constant_count(lines),
    decreases lines.len(),
{
    let prev = lines.drop_last();
    assert(const_texts(prev) is Ok);
    lemma_texts_count(prev);
    if k == lines.len() - 1 {
        assert(lines.take(k) =~= prev);
    } else {
        assert(prev[k] == lines[k]);
        lemma_constant_position(prev, k);
        assert(prev.take(k) =~= lines.take(k));
    }
}

proof fn lemma_texts_count(lines: Seq<Seq<char>>)
    requires
        const_texts(lines) is Ok,
    ensures
        const_texts(lines)->Ok_0.len() == constant_count(lines),
    decreases lines.len(),
{
    if lines.len() > 0 {
        lemma_texts_count(lines.drop_last());
    }
}

/// Pool entry `i` is the constant of value text `i`, read with the host's
/// float reading `i`.
pub proof fn lemma_pool_entry(texts: Seq<Seq<char>>, floats: Seq<Option<u32>>, i: int)
    requires
        0 <= i < texts.len(),
        pool(texts, floats) is Ok,
    ensures
        pool(texts, floats)->Ok_0.len() == texts.len(),
        const_value(texts[i], float_at(floats, i)) == Ok::<Value, AsmErrorView>(
            pool(texts, floats)->Ok_0[i],
        ),
    decreases texts.len(),
{
    let prev = texts.drop_last();
    assert(pool(prev, floats) is Ok);
    if i < texts.len() - 1 {
        assert(prev[i] == texts[i]);
        lemma_pool_entry(prev, floats, i);
    } else if prev.len() > 0 {
        lemma_pool_entry(prev, floats, 0);
    }
}

} // verus!
