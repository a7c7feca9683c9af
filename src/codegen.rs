use vstd::prelude::*;
use crate::parser::{hex_digit_value, hex_number, literal_value, hex_digits, lemma_body_view, statement_views, BinaryOperator, Condition, Statement, StatementView};
use crate::text::{push_char, str_eq};

verus! {

broadcast use vstd::std_specs::vec::group_vec_axioms;

/// The memory address of the first static variable.
pub const BASE_ADDRESS: u16 = 0x8000;

/// How many registers are handed out to static variables.
pub const POOL_SIZE: usize = 5;

// ---- the allocation table ----

/// The variables that the statements `ss[k..]` assign, in traversal order,
/// nested bodies included, with repetitions.
pub open spec fn assigned_from(ss: Seq<StatementView>, k: int) -> Seq<Seq<char>>
    decreases ss, ss.len() - k,
{
    if k < 0 || k >= ss.len() {
        Seq::empty()
    } else {
        assigned_in(ss[k]) + assigned_from(ss, k + 1)
    }
}

/// The variables that one statement assigns, in traversal order.
pub open spec fn assigned_in(s: StatementView) -> Seq<Seq<char>>
    decreases s, 0nat,
{
    match s {
        StatementView::StaticAssignment { variable, .. } => seq![variable],
        StatementView::If { body, .. } => assigned_from(body, 0),
        _ => Seq::empty(),
    }
}

/// The first index at or after `k` at which `x` occurs in `vs`.
pub open spec fn position_from(vs: Seq<Seq<char>>, x: Seq<char>, k: int) -> Option<int>
    decreases vs.len() - k,
{
    if k < 0 || k >= vs.len() {
        None
    } else if vs[k] == x {
        Some(k)
    } else {
        position_from(vs, x, k + 1)
    }
}

/// The first index at which `x` occurs in `vs`.
pub open spec fn position(vs: Seq<Seq<char>>, x: Seq<char>) -> Option<int> {
    position_from(vs, x, 0)
}

/// `known` with `x` added at the end unless it is there already.
pub open spec fn add_name(known: Seq<Seq<char>>, x: Seq<char>) -> Seq<Seq<char>> {
    if position(known, x) is Some {
        known
    } else {
        known.push(x)
    }
}

/// `known` with each of `names` added in turn.
pub open spec fn add_names(known: Seq<Seq<char>>, names: Seq<Seq<char>>) -> Seq<Seq<char>>
    decreases names.len(),
{
    if names.len() == 0 {
        known
    } else {
        add_names(add_name(known, names[0]), names.drop_first())
    }
}

/// The distinct static variables of a program, in order of first assignment.
pub open spec fn static_variables(ss: Seq<StatementView>) -> Seq<Seq<char>> {
    add_names(Seq::empty(), assigned_from(ss, 0))
}

/// The name of the register at index `p` of the pool: B, C, D, E and H, in that
/// order. The accumulator A is never in the pool, since every 8-bit assignment
/// and every operation passes through it.
pub open spec fn pool_register(p: int) -> Seq<char> {
    if p == 0 {
        seq!['B']
    } else if p == 1 {
        seq!['C']
    } else if p == 2 {
        seq!['D']
    } else if p == 3 {
        seq!['E']
    } else {
        seq!['H']
    }
}

/// The address of a variable in the table.
pub open spec fn address_of(vars: Seq<Seq<char>>, x: Seq<char>) -> Option<nat> {
    match position(vars, x) {
        Some(p) => Some((BASE_ADDRESS + p) as nat),
        None => None,
    }
}

/// The register bound to a variable, if any.
pub open spec fn register_of(vars: Seq<Seq<char>>, x: Seq<char>) -> Option<Seq<char>> {
    match position(vars, x) {
        Some(p) => if p < POOL_SIZE {
            Some(pool_register(p))
        } else {
            None
        },
        None => None,
    }
}

/// The register that an operand of a comparison stands for: the variable's
/// register, or else the name itself.
pub open spec fn resolve(vars: Seq<Seq<char>>, x: Seq<char>) -> Seq<char> {
    match register_of(vars, x) {
        Some(r) => r,
        None => x,
    }
}

// ---- text ----

pub open spec fn upper(c: char) -> char {
    if 'a' <= c && c <= 'z' {
        ((c as u32 - 32) as u8) as char
    } else {
        c
    }
}

/// Each character upper-cased.
pub open spec fn upper_all(d: Seq<char>) -> Seq<char> {
    d.map_values(|c: char| upper(c))
}

/// A literal's digits, upper-cased, as written in an operand.
pub open spec fn operand_digits(lit: Seq<char>) -> Seq<char> {
    upper_all(hex_digits(lit))
}

pub open spec fn hex_char(d: nat) -> char {
    if d < 10 {
        (('0' as u32 + d) as u8) as char
    } else {
        (('A' as u32 + d - 10) as u8) as char
    }
}

/// Four upper-case hexadecimal digits of a 16-bit value.
pub open spec fn hex4(a: nat) -> Seq<char> {
    seq![hex_char((a / 4096) % 16), hex_char((a / 256) % 16), hex_char((a / 16) % 16), hex_char(a % 16)]
}

/// The decimal digits of a number.
pub open spec fn decimal(n: nat) -> Seq<char>
    decreases n,
{
    if n < 10 {
        seq![hex_char(n)]
    } else {
        decimal(n / 10).push(hex_char(n % 10))
    }
}

pub open spec fn operator_instruction(op: BinaryOperator) -> Seq<char> {
    match op {
        BinaryOperator::Add => "ADD B;\n"@,
        BinaryOperator::Sub => "SUB B;\n"@,
        BinaryOperator::And => "ANA B;\n"@,
        BinaryOperator::Or => "ORA B;\n"@,
        BinaryOperator::Xor => "XRA B;\n"@,
    }
}

/// `SKIP_<label>` followed by `end`.
pub open spec fn skip_ref(label: nat, end: Seq<char>) -> Seq<char> {
    "SKIP_"@ + decimal(label) + end
}

/// The jumps that pass over the body of an `if` unless its condition holds.
pub open spec fn jumps(cond: Condition, label: nat) -> Seq<char> {
    match cond {
        Condition::Equal => "JNZ "@ + skip_ref(label, ";\n"@),
        Condition::Greater => "JZ "@ + skip_ref(label, ";\n"@) + "JC "@ + skip_ref(label, ";\n"@),
        Condition::Less => "JZ "@ + skip_ref(label, ";\n"@) + "JNC "@ + skip_ref(label, ";\n"@),
    }
}

/// The lines for a binary operation on register `r`.
pub open spec fn binary_op_text(r: Seq<char>, op: BinaryOperator) -> Seq<char> {
    if r == "A"@ {
        operator_instruction(op)
    } else {
        "MOV A,"@ + r + ";\n"@ + operator_instruction(op) + "MOV "@ + r + ",A;\n"@
    }
}

/// The lines that compare the operands of an `if`, once resolved to registers.
pub open spec fn compare_text(left: Seq<char>, right: Seq<char>) -> Seq<char> {
    (if left == "A"@ {
        Seq::empty()
    } else {
        "MOV A,"@ + left + ";\n"@
    }) + (if right == "A"@ {
        "CPI 00H;\n"@
    } else {
        "CMP "@ + right + ";\n"@
    })
}

/// The lines for an assignment to a static variable at `address`, bound to `reg` if any.
pub open spec fn assignment_text(
    value: Seq<char>,
    is_16bit: bool,
    address: nat,
    reg: Option<Seq<char>>,
) -> Seq<char> {
    if is_16bit {
        "LXI H,"@ + operand_digits(value) + "H;\n"@ + "SHLD "@ + hex4(address) + "H;\n"@ + match reg {
            Some(r) => "MOV "@ + r + ",L;\n"@,
            None => Seq::empty(),
        }
    } else {
        "MVI A,"@ + operand_digits(value) + "H;\n"@ + "STA "@ + hex4(address) + "H;\n"@ + match reg {
            Some(r) => if r == "A"@ {
                Seq::empty()
            } else {
                "MOV "@ + r + ",A;\n"@
            },
            None => Seq::empty(),
        }
    }
}

/// The text of one statement, given the variable table and the next free label,
/// and the next free label after it.
pub open spec fn emit_statement(s: StatementView, vars: Seq<Seq<char>>, label: nat) -> (Seq<char>, nat)
    decreases s, 0nat,
{
    match s {
        StatementView::MoveImmediate { register, value } => (
            "MVI "@ + register + ","@ + operand_digits(value) + "H;\n"@,
            label,
        ),
        StatementView::LoadImmediateExtended { register_pair, address } => (
            "LXI "@ + register_pair + ","@ + operand_digits(address) + "H;\n"@,
            label,
        ),
        StatementView::StaticAssignment { variable, value, is_16bit } => (
            assignment_text(
                value,
                is_16bit,
                match address_of(vars, variable) {
                    Some(a) => a,
                    None => 0,
                },
                register_of(vars, variable),
            ),
            label,
        ),
        StatementView::BinaryOp { register, operator } => (binary_op_text(register, operator), label),
        StatementView::PointerIncDec { register_pair, is_increment } => (
            (if is_increment {
                "INX "@
            } else {
                "DCX "@
            }) + register_pair + ";\n"@,
            label,
        ),
        StatementView::If { left, condition, right, body } => {
            let inner = emit_from(body, 0, vars, label + 1);
            (
                compare_text(resolve(vars, left), resolve(vars, right)) + jumps(condition, label)
                    + inner.0 + skip_ref(label, ":\n"@),
                inner.1,
            )
        },
    }
}

/// The text of the statements `ss[k..]` in order, and the next free label after them.
pub open spec fn emit_from(ss: Seq<StatementView>, k: int, vars: Seq<Seq<char>>, label: nat) -> (
    Seq<char>,
    nat,
)
    decreases ss, ss.len() - k,
{
    if k < 0 || k >= ss.len() {
        (Seq::empty(), label)
    } else {
        let first = emit_statement(ss[k], vars, label);
        let rest = emit_from(ss, k + 1, vars, first.1);
        (first.0 + rest.0, rest.1)
    }
}

/// The assembly text of a whole program.
pub open spec fn generate_spec(ss: Seq<StatementView>) -> Seq<char> {
    emit_from(ss, 0, static_variables(ss), 0).0
}

/// The number of `if` statements among `ss[k..]`, nested ones included.
pub open spec fn ifs_from(ss: Seq<StatementView>, k: int) -> nat
    decreases ss, ss.len() - k,
{
    if k < 0 || k >= ss.len() {
        0
    } else {
        ifs_in(ss[k]) + ifs_from(ss, k + 1)
    }
}

/// The number of `if` statements in one statement, itself included.
pub open spec fn ifs_in(s: StatementView) -> nat
    decreases s, 0nat,
{
    match s {
        StatementView::If { body, .. } => 1 + ifs_from(body, 0),
        _ => 0,
    }
}

/// The names of a table of variables.
pub open spec fn names(vs: Seq<String>) -> Seq<Seq<char>> {
    vs.map_values(|v: String| v@)
}

/// Every one of `xs` has a place in `vars`.
pub open spec fn all_known(vars: Seq<Seq<char>>, xs: Seq<Seq<char>>) -> bool {
    forall|j: int| 0 <= j < xs.len() ==> (#[trigger] position(vars, xs[j])) is Some
}

// ---- lemmas ----

proof fn lemma_labels(s: StatementView, vars: Seq<Seq<char>>, label: nat)
    ensures
        emit_statement(s, vars, label).1 == label + ifs_in(s),
    decreases s, 0nat,
{
    match s {
        StatementView::If { body, .. } => {
            lemma_labels_from(body, 0, vars, label + 1);
        },
        _ => {},
    }
}

proof fn lemma_labels_from(ss: Seq<StatementView>, k: int, vars: Seq<Seq<char>>, label: nat)
    ensures
        emit_from(ss, k, vars, label).1 == label + ifs_from(ss, k),
    decreases ss, ss.len() - k,
{
    if 0 <= k < ss.len() {
        lemma_labels(ss[k], vars, label);
        lemma_labels_from(ss, k + 1, vars, emit_statement(ss[k], vars, label).1);
    }
}

proof fn lemma_position_from_bounds(vs: Seq<Seq<char>>, x: Seq<char>, k: int)
    requires
        0 <= k,
    ensures
        match position_from(vs, x, k) {
            Some(p) => k <= p < vs.len() && vs[p] == x && forall|q: int|
                k <= q < p ==> vs[q] != x,
            None => forall|q: int| k <= q < vs.len() ==> vs[q] != x,
        },
    decreases vs.len() - k,
{
    if k < vs.len() && vs[k] != x {
        lemma_position_from_bounds(vs, x, k + 1);
    }
}

/// The first place of `x` in `vs` is `p`, when `vs[p] == x` and no earlier element is `x`.
proof fn lemma_position_is(vs: Seq<Seq<char>>, x: Seq<char>, p: int)
    requires
        0 <= p < vs.len(),
        vs[p] == x,
        forall|q: int| 0 <= q < p ==> vs[q] != x,
    ensures
        position(vs, x) == Some(p),
{
    lemma_position_from_bounds(vs, x, 0);
    match position(vs, x) {
        Some(p2) => {
            if p2 < p {
                assert(vs[p2] != x);
            }
        },
        None => {
            assert(vs[p] != x);
        },
    }
}

/// A place in `vs` is kept when something is added at the end.
proof fn lemma_position_push(vs: Seq<Seq<char>>, y: Seq<char>, x: Seq<char>)
    ensures
        position(vs, x) is Some ==> position(vs.push(y), x) == position(vs, x),
        position(vs, x) is None ==> (x == y <==> position(vs.push(y), x) == Some(vs.len() as int)),
        position(vs, x) is None && x != y ==> position(vs.push(y), x) is None,
{
    lemma_position_from_bounds(vs, x, 0);
    lemma_position_from_bounds(vs.push(y), x, 0);
    match position(vs, x) {
        Some(p) => {
            lemma_position_is(vs.push(y), x, p);
        },
        None => {
            if x == y {
                lemma_position_is(vs.push(y), x, vs.len() as int);
            }
        },
    }
}

/// Adding names keeps the places of the names known before and places every added name.
proof fn lemma_add_names(known: Seq<Seq<char>>, xs: Seq<Seq<char>>)
    ensures
        all_known(add_names(known, xs), xs),
        forall|x: Seq<char>|
            position(known, x) is Some ==> #[trigger] position(add_names(known, xs), x) == position(known, x),
        known.len() <= add_names(known, xs).len(),
        add_names(known, xs).subrange(0, known.len() as int) == known,
    decreases xs.len(),
{
    if xs.len() > 0 {
        let k1 = add_name(known, xs[0]);
        lemma_add_names(k1, xs.drop_first());
        assert forall|x: Seq<char>| position(known, x) is Some implies #[trigger] position(
            add_names(known, xs),
            x,
        ) == position(known, x) by {
            lemma_position_push(known, xs[0], x);
        }
        lemma_position_push(known, xs[0], xs[0]);
        assert(position(k1, xs[0]) is Some);
        assert forall|j: int| 0 <= j < xs.len() implies (#[trigger] position(
            add_names(known, xs),
            xs[j],
        )) is Some by {
            if j > 0 {
                assert(xs[j] == xs.drop_first()[j - 1]);
            }
        }
        assert(add_names(known, xs).subrange(0, known.len() as int) == k1.subrange(
            0,
            known.len() as int,
        ));
    }
}

proof fn lemma_add_names_append(known: Seq<Seq<char>>, a: Seq<Seq<char>>, b: Seq<Seq<char>>)
    ensures
        add_names(known, a + b) == add_names(add_names(known, a), b),
    decreases a.len(),
{
    if a.len() > 0 {
        assert((a + b).drop_first() == a.drop_first() + b);
        assert((a + b)[0] == a[0]);
        lemma_add_names_append(add_name(known, a[0]), a.drop_first(), b);
    } else {
        assert(a + b == b);
    }
}

// ---- allocation ----

/// The place of `name` in the table.
fn find_var(vars: &Vec<String>, name: &str) -> (r: Option<usize>)
    ensures
        match r {
            Some(p) => position(names(vars@), name@) == Some(p as int),
            None => position(names(vars@), name@) is None,
        },
{
    let ghost vs = names(vars@);
    let mut k: usize = 0;
    while k < vars.len()
        invariant
            vs == names(vars@),
            k <= vars@.len(),
            position(vs, name@) == position_from(vs, name@, k as int),
        decreases vars@.len() - k,
    {
        if str_eq(vars[k].as_str(), name) {
            return Some(k);
        }
        k = k + 1;
    }
    None
}

/// First pass: gives each static variable that `statements` assign, nested
/// bodies included, a place in `vars` at its first assignment.
fn allocate_static_vars(statements: &[Statement], vars: &mut Vec<String>)
    ensures
        names(final(vars)@) == add_names(
            names(old(vars)@),
            assigned_from(statement_views(statements@), 0),
        ),
    decreases statements@,
{
    let ghost sv = statement_views(statements@);
    let ghost v0 = names(vars@);
    let mut k: usize = 0;
    while k < statements.len()
        invariant
            sv == statement_views(statements@),
            k <= statements@.len(),
            add_names(v0, assigned_from(sv, 0)) == add_names(names(vars@), assigned_from(sv, k as int)),
        decreases statements@.len() - k,
    {
        let ghost before = names(vars@);
        proof {
            lemma_add_names_append(before, assigned_in(sv[k as int]), assigned_from(sv, k + 1));
            lemma_body_view(&statements@[k as int]);
            assert(add_names(before, Seq::empty()) == before);
        }
        match &statements[k] {
            Statement::StaticAssignment { variable, .. } => {
                if find_var(vars, variable.as_str()).is_none() {
                    vars.push(variable.clone());
                }
                proof {
                    assert(names(vars@) == add_name(before, variable@));
                    assert(seq![variable@].drop_first() =~= Seq::empty());
                    assert(add_names(add_name(before, variable@), Seq::empty()) == add_name(before, variable@));
                    assert(add_names(before, seq![variable@]) == add_name(before, variable@));
                }
            },
            Statement::If { body, .. } => {
                proof {
                    assert(decreases_to!(statements@ => statements@[k as int]));
                }
                allocate_static_vars(body.as_slice(), vars);
            },
            _ => {},
        }
        k = k + 1;
    }
}

// ---- emission ----

fn digit_char(d: u64) -> (r: char)
    requires
        d < 16,
    ensures
        r == hex_char(d as nat),
{
    if d < 10 {
        (('0' as u32 + d as u32) as u8) as char
    } else {
        (('A' as u32 + d as u32 - 10) as u8) as char
    }
}

fn upper_char(c: char) -> (r: char)
    ensures
        r == upper(c),
{
    if 'a' <= c && c <= 'z' {
        ((c as u32 - 32) as u8) as char
    } else {
        c
    }
}

/// Appends the decimal digits of `n`.
fn push_decimal(out: &mut String, n: u64)
    ensures
        final(out)@ == old(out)@ + decimal(n as nat),
    decreases n,
{
    if n >= 10 {
        push_decimal(out, n / 10);
    }
    push_char(out, digit_char(n % 10));
    proof {
        if n < 10 {
            assert(n % 10 == n);
        }
    }
    assert(final(out)@ =~= old(out)@ + decimal(n as nat));
}

/// Appends four upper-case hexadecimal digits of `a`.
fn push_hex4(out: &mut String, a: u16)
    ensures
        final(out)@ == old(out)@ + hex4(a as nat),
{
    let a = a as u64;
    push_char(out, digit_char((a / 4096) % 16));
    push_char(out, digit_char((a / 256) % 16));
    push_char(out, digit_char((a / 16) % 16));
    push_char(out, digit_char(a % 16));
    assert(final(out)@ =~= old(out)@ + hex4(a as nat));
}

/// Appends a literal's digits, upper-cased, without its `0x` prefix.
fn push_operand_digits(out: &mut String, lit: &str)
    ensures
        final(out)@ == old(out)@ + operand_digits(lit@),
{
    let s = crate::text::chars_of(lit);
    let n = s.len();
    let start: usize = if n >= 2 && s[0] == '0' && (s[1] == 'x' || s[1] == 'X') {
        2
    } else {
        0
    };
    let ghost d = hex_digits(lit@);
    assert(d == s@.subrange(start as int, n as int));
    let ghost o = old(out)@;
    let mut k: usize = start;
    while k < n
        invariant
            start <= k <= n,
            n == s@.len(),
            d == s@.subrange(start as int, n as int),
            out@ == o + d.subrange(0, k - start).map_values(|c: char| upper(c)),
        decreases n - k,
    {
        push_char(out, upper_char(s[k]));
        assert(d.subrange(0, k + 1 - start).map_values(|c: char| upper(c)) =~= d.subrange(
            0,
            k - start,
        ).map_values(|c: char| upper(c)).push(upper(s@[k as int])));
        k = k + 1;
    }
    assert(d.subrange(0, n - start) =~= d);
}

fn pool_name(p: usize) -> (r: &'static str)
    requires
        p < POOL_SIZE,
    ensures
        r@ == pool_register(p as int),
{
    if p == 0 {
        proof {
            reveal_strlit("B");
        }
        "B"
    } else if p == 1 {
        proof {
            reveal_strlit("C");
        }
        "C"
    } else if p == 2 {
        proof {
            reveal_strlit("D");
        }
        "D"
    } else if p == 3 {
        proof {
            reveal_strlit("E");
        }
        "E"
    } else {
        proof {
            reveal_strlit("H");
        }
        "H"
    }
}

/// The register bound to a variable, if any.
fn register_for(vars: &Vec<String>, name: &str) -> (r: Option<&'static str>)
    ensures
        match r {
            Some(x) => register_of(names(vars@), name@) == Some(x@),
            None => register_of(names(vars@), name@) is None,
        },
{
    match find_var(vars, name) {
        Some(p) => if p < POOL_SIZE {
            Some(pool_name(p))
        } else {
            None
        },
        None => None,
    }
}

/// The register that an operand stands for.
fn resolve_operand<'a>(vars: &Vec<String>, name: &'a str) -> (r: &'a str)
    ensures
        r@ == resolve(names(vars@), name@),
{
    match register_for(vars, name) {
        Some(x) => x,
        None => name,
    }
}

fn instruction_text(op: BinaryOperator) -> (r: &'static str)
    ensures
        r@ == operator_instruction(op),
{
    match op {
        BinaryOperator::Add => "ADD B;\n",
        BinaryOperator::Sub => "SUB B;\n",
        BinaryOperator::And => "ANA B;\n",
        BinaryOperator::Or => "ORA B;\n",
        BinaryOperator::Xor => "XRA B;\n",
    }
}

/// Second pass: appends the text of one statement and advances the label counter
/// past the labels it uses.
fn generate_statement(
    statement: &Statement,
    vars: &Vec<String>,
    asm_code: &mut String,
    label_counter: &mut u64,
)
    requires
        vars@.len() <= 0x8000,
        all_known(names(vars@), assigned_in(statement@)),
        *old(label_counter) + ifs_in(statement@) <= u64::MAX,
    ensures
        final(asm_code)@ == old(asm_code)@ + emit_statement(
            statement@,
            names(vars@),
            *old(label_counter) as nat,
        ).0,
        *final(label_counter) as nat == emit_statement(
            statement@,
            names(vars@),
            *old(label_counter) as nat,
        ).1,
    decreases statement, 1nat,
{
    let ghost vs = names(vars@);
    let ghost o = old(asm_code)@;
    match statement {
        Statement::MoveImmediate { register, value } => {
            asm_code.append("MVI ");
            asm_code.append(register.as_str());
            asm_code.append(",");
            push_operand_digits(asm_code, value.as_str());
            asm_code.append("H;\n");
            assert(asm_code@ =~= o + emit_statement(statement@, vs, *old(label_counter) as nat).0);
        },
        Statement::LoadImmediateExtended { register_pair, address } => {
            asm_code.append("LXI ");
            asm_code.append(register_pair.as_str());
            asm_code.append(",");
            push_operand_digits(asm_code, address.as_str());
            asm_code.append("H;\n");
            assert(asm_code@ =~= o + emit_statement(statement@, vs, *old(label_counter) as nat).0);
        },
        Statement::StaticAssignment { .. } => {
            generate_assignment(statement, vars, asm_code);
            assert(asm_code@ =~= o + emit_statement(statement@, vs, *old(label_counter) as nat).0);
        },
        Statement::BinaryOp { register, operator } => {
            let on_accumulator = str_eq(register.as_str(), "A");
            if !on_accumulator {
                asm_code.append("MOV A,");
                asm_code.append(register.as_str());
                asm_code.append(";\n");
            }
            asm_code.append(instruction_text(*operator));
            if !on_accumulator {
                asm_code.append("MOV ");
                asm_code.append(register.as_str());
                asm_code.append(",A;\n");
            }
            assert(asm_code@ =~= o + emit_statement(statement@, vs, *old(label_counter) as nat).0);
        },
        Statement::PointerIncDec { register_pair, is_increment } => {
            if *is_increment {
                asm_code.append("INX ");
            } else {
                asm_code.append("DCX ");
            }
            asm_code.append(register_pair.as_str());
            asm_code.append(";\n");
            assert(asm_code@ =~= o + emit_statement(statement@, vs, *old(label_counter) as nat).0);
        },
        Statement::If { .. } => {
            generate_if(statement, vars, asm_code, label_counter);
        },
    }
}

/// The lines of an assignment to a static variable.
fn generate_assignment(statement: &Statement, vars: &Vec<String>, asm_code: &mut String)
    requires
        statement is StaticAssignment,
        vars@.len() <= 0x8000,
        all_known(names(vars@), assigned_in(statement@)),
    ensures
        final(asm_code)@ == old(asm_code)@ + emit_statement(statement@, names(vars@), 0).0,
{
    let ghost vs = names(vars@);
    let ghost o = old(asm_code)@;
    let (variable, value, is_16bit) = match statement {
        Statement::StaticAssignment { variable, value, is_16bit } => (variable, value, is_16bit),
        _ => {
            return;
        },
    };
    let p = match find_var(vars, variable.as_str()) {
        Some(p) => p,
        None => {
            proof {
                assert(position(vs, assigned_in(statement@)[0]) is Some);
            }
            0
        },
    };
    proof {
        lemma_position_from_bounds(vs, variable@, 0);
    }
    let addr: u16 = BASE_ADDRESS + p as u16;
    let reg = register_for(vars, variable.as_str());
    if *is_16bit {
        asm_code.append("LXI H,");
        push_operand_digits(asm_code, value.as_str());
        asm_code.append("H;\n");
        asm_code.append("SHLD ");
        push_hex4(asm_code, addr);
        asm_code.append("H;\n");
        match reg {
            Some(r) => {
                asm_code.append("MOV ");
                asm_code.append(r);
                asm_code.append(",L;\n");
            },
            None => {},
        }
    } else {
        asm_code.append("MVI A,");
        push_operand_digits(asm_code, value.as_str());
        asm_code.append("H;\n");
        asm_code.append("STA ");
        push_hex4(asm_code, addr);
        asm_code.append("H;\n");
        match reg {
            Some(r) => {
                if !str_eq(r, "A") {
                    asm_code.append("MOV ");
                    asm_code.append(r);
                    asm_code.append(",A;\n");
                }
            },
            None => {},
        }
    }
    assert(asm_code@ =~= o + emit_statement(statement@, vs, 0).0);
}

/// Appends the comparison of an `if` and the jumps past its body.
fn push_test(asm_code: &mut String, vars: &Vec<String>, left: &str, condition: Condition, right: &str, label: u64)
    ensures
        final(asm_code)@ == old(asm_code)@ + compare_text(resolve(names(vars@), left@), resolve(names(vars@), right@))
            + jumps(condition, label as nat),
{
    let ghost o = old(asm_code)@;
    let left_reg = resolve_operand(vars, left);
    let right_reg = resolve_operand(vars, right);
    push_compare(asm_code, left_reg, right_reg);
    push_jumps(asm_code, condition, label);
    assert(asm_code@ =~= o + compare_text(left_reg@, right_reg@) + jumps(condition, label as nat));
}

/// Appends the lines that compare two registers.
fn push_compare(asm_code: &mut String, left_reg: &str, right_reg: &str)
    ensures
        final(asm_code)@ == old(asm_code)@ + compare_text(left_reg@, right_reg@),
{
    let ghost o = old(asm_code)@;
    if !str_eq(left_reg, "A") {
        asm_code.append("MOV A,");
        asm_code.append(left_reg);
        asm_code.append(";\n");
    }
    if str_eq(right_reg, "A") {
        asm_code.append("CPI 00H;\n");
    } else {
        asm_code.append("CMP ");
        asm_code.append(right_reg);
        asm_code.append(";\n");
    }
    assert(asm_code@ =~= o + compare_text(left_reg@, right_reg@));
}

/// Appends the jumps past the body of an `if` with id `label`.
fn push_jumps(asm_code: &mut String, condition: Condition, label: u64)
    ensures
        final(asm_code)@ == old(asm_code)@ + jumps(condition, label as nat),
{
    let ghost o = old(asm_code)@;
    match condition {
        Condition::Equal => {
            asm_code.append("JNZ ");
            push_skip_ref(asm_code, label, ";\n");
        },
        Condition::Greater => {
            asm_code.append("JZ ");
            push_skip_ref(asm_code, label, ";\n");
            asm_code.append("JC ");
            push_skip_ref(asm_code, label, ";\n");
        },
        Condition::Less => {
            asm_code.append("JZ ");
            push_skip_ref(asm_code, label, ";\n");
            asm_code.append("JNC ");
            push_skip_ref(asm_code, label, ";\n");
        },
    }
    assert(asm_code@ =~= o + jumps(condition, label as nat));
}

/// The lines of an `if`: the comparison, the jumps past the body, the body and the label.
fn generate_if(statement: &Statement, vars: &Vec<String>, asm_code: &mut String, label_counter: &mut u64)
    requires
        statement is If,
        vars@.len() <= 0x8000,
        all_known(names(vars@), assigned_in(statement@)),
        *old(label_counter) + ifs_in(statement@) <= u64::MAX,
    ensures
        final(asm_code)@ == old(asm_code)@ + emit_statement(
            statement@,
            names(vars@),
            *old(label_counter) as nat,
        ).0,
        *final(label_counter) as nat == emit_statement(
            statement@,
            names(vars@),
            *old(label_counter) as nat,
        ).1,
    decreases statement, 0nat,
{
    let ghost vs = names(vars@);
    let ghost o = old(asm_code)@;
    match statement {
        Statement::If { left, condition, right, body } => {
            proof {
                lemma_body_view(statement);
                lemma_labels(statement@, vs, *old(label_counter) as nat);
                lemma_labels_from(statement_views(body@), 0, vs, *old(label_counter) as nat + 1);
            }
            let label = *label_counter;
            *label_counter = label + 1;
            push_test(asm_code, vars, left.as_str(), *condition, right.as_str(), label);
            generate_body(body.as_slice(), vars, asm_code, label_counter);
            push_skip_ref(asm_code, label, ":\n");
            assert(asm_code@ =~= o + emit_statement(statement@, vs, *old(label_counter) as nat).0);
        },
        _ => {},
    }
}

/// Appends the lines of the statements of a body, in order.
fn generate_body(body: &[Statement], vars: &Vec<String>, asm_code: &mut String, label_counter: &mut u64)
    requires
        vars@.len() <= 0x8000,
        all_known(names(vars@), assigned_from(statement_views(body@), 0)),
        *old(label_counter) + ifs_from(statement_views(body@), 0) <= u64::MAX,
    ensures
        final(asm_code)@ == old(asm_code)@ + emit_from(
            statement_views(body@),
            0,
            names(vars@),
            *old(label_counter) as nat,
        ).0,
        *final(label_counter) as nat == emit_from(
            statement_views(body@),
            0,
            names(vars@),
            *old(label_counter) as nat,
        ).1,
    decreases body@, 2nat,
{
    let ghost vs = names(vars@);
    let ghost bv = statement_views(body@);
    let ghost l0 = *old(label_counter) as nat;
    let ghost head = old(asm_code)@;
    proof {
        lemma_labels_from(bv, 0, vs, l0);
    }
    let mut k: usize = 0;
    while k < body.len()
        invariant
            vs == names(vars@),
            vars@.len() <= 0x8000,
            bv == statement_views(body@),
            k <= body@.len(),
            head + emit_from(bv, 0, vs, l0).0 == asm_code@ + emit_from(
                bv,
                k as int,
                vs,
                *label_counter as nat,
            ).0,
            emit_from(bv, 0, vs, l0).1 == emit_from(bv, k as int, vs, *label_counter as nat).1,
            emit_from(bv, 0, vs, l0).1 <= u64::MAX,
            all_known(vs, assigned_from(bv, k as int)),
        decreases body@.len() - k,
    {
        let ghost cur = *label_counter as nat;
        let ghost before = asm_code@;
        proof {
            lemma_labels_from(bv, k as int, vs, cur);
            lemma_labels_from(bv, k + 1, vs, emit_statement(bv[k as int], vs, cur).1);
            lemma_labels(bv[k as int], vs, cur);
            assert(assigned_from(bv, k as int) == assigned_in(bv[k as int]) + assigned_from(bv, k + 1));
            assert forall|j: int| 0 <= j < assigned_in(bv[k as int]).len() implies (#[trigger] position(
                vs,
                assigned_in(bv[k as int])[j],
            )) is Some by {
                assert(assigned_in(bv[k as int])[j] == assigned_from(bv, k as int)[j]);
            }
            assert forall|j: int| 0 <= j < assigned_from(bv, k + 1).len() implies (#[trigger] position(
                vs,
                assigned_from(bv, k + 1)[j],
            )) is Some by {
                assert(assigned_from(bv, k + 1)[j] == assigned_from(bv, k as int)[j + assigned_in(
                    bv[k as int],
                ).len()]);
            }
        }
        generate_statement(&body[k], vars, asm_code, label_counter);
        proof {
            assert(before + emit_from(bv, k as int, vs, cur).0 =~= asm_code@ + emit_from(
                bv,
                k + 1,
                vs,
                *label_counter as nat,
            ).0);
        }
        k = k + 1;
    }
    assert(asm_code@ + emit_from(bv, k as int, vs, *label_counter as nat).0 =~= asm_code@);
}

/// Appends `SKIP_<label>` and `end`.
fn push_skip_ref(out: &mut String, label: u64, end: &str)
    ensures
        final(out)@ == old(out)@ + skip_ref(label as nat, end@),
{
    out.append("SKIP_");
    push_decimal(out, label);
    out.append(end);
    assert(final(out)@ =~= old(out)@ + skip_ref(label as nat, end@));
}

/// The number of `if`s among `statements`, nested ones included, or `None`
/// when it exceeds `u64::MAX`.
fn count_ifs(statements: &[Statement]) -> (r: Option<u64>)
    ensures
        match r {
            Some(n) => n as nat == ifs_from(statement_views(statements@), 0),
            None => ifs_from(statement_views(statements@), 0) > u64::MAX,
        },
    decreases statements@,
{
    let ghost sv = statement_views(statements@);
    let mut total: u64 = 0;
    let mut k: usize = 0;
    while k < statements.len()
        invariant
            sv == statement_views(statements@),
            k <= statements@.len(),
            ifs_from(sv, 0) == total + ifs_from(sv, k as int),
        decreases statements@.len() - k,
    {
        let here: u64 = match &statements[k] {
            Statement::If { body, .. } => {
                proof {
                    lemma_body_view(&statements@[k as int]);
                    assert(decreases_to!(statements@ => statements@[k as int]));
                    assert(ifs_from(sv, k as int) == ifs_in(sv[k as int]) + ifs_from(sv, k + 1));
                    assert(ifs_in(sv[k as int]) == 1 + ifs_from(statement_views(body@), 0));
                }
                match count_ifs(body.as_slice()) {
                    Some(n) => if n < u64::MAX {
                        n + 1
                    } else {
                        return None;
                    },
                    None => {
                        return None;
                    },
                }
            },
            _ => 0,
        };
        assert(here as nat == ifs_in(sv[k as int]));
        if total > u64::MAX - here {
            return None;
        }
        total = total + here;
        k = k + 1;
    }
    Some(total)
}

/// Whether a program is within what `generate` can handle: at most 0x8000
/// static variables, so that every address has 16 bits, and at most `u64::MAX`
/// `if`s, so that every label id fits the counter.
pub fn within_limits(statements: &[Statement]) -> (r: bool)
    ensures
        r == (static_variables(statement_views(statements@)).len() <= 0x8000 && ifs_from(
            statement_views(statements@),
            0,
        ) <= u64::MAX),
{
    let mut vars: Vec<String> = Vec::new();
    allocate_static_vars(statements, &mut vars);
    assert(names(Seq::<String>::empty()) =~= Seq::<Seq<char>>::empty());
    vars.len() <= 0x8000 && count_ifs(statements).is_some()
}

/// Compiles a program into assembly text: a first pass places the static
/// variables, a second emits the lines of each statement in order.
pub fn generate(statements: &[Statement]) -> (r: String)
    requires
        static_variables(statement_views(statements@)).len() <= 0x8000,
        ifs_from(statement_views(statements@), 0) <= u64::MAX,
    ensures
        r@ == generate_spec(statement_views(statements@)),
{
    let ghost sv = statement_views(statements@);
    let mut vars: Vec<String> = Vec::new();
    allocate_static_vars(statements, &mut vars);
    proof {
        assert(names(Seq::<String>::empty()) =~= Seq::<Seq<char>>::empty());
        lemma_add_names(Seq::empty(), assigned_from(sv, 0));
    }
    let mut asm_code = String::new();
    let mut label_counter: u64 = 0;
    generate_body(statements, &vars, &mut asm_code, &mut label_counter);
    assert(asm_code@ =~= generate_spec(sv));
    asm_code
}

// ---- properties of the emitted text ----

pub open spec fn is_upper_hex_digit(c: char) -> bool {
    ('0' <= c && c <= '9') || ('A' <= c && c <= 'F')
}

proof fn lemma_upper_digits(d: Seq<char>)
    requires
        crate::parser::all_hex_digits(d),
    ensures
        upper_all(d).len() == d.len(),
        forall|k: int|
            0 <= k < d.len() ==> is_upper_hex_digit(#[trigger] upper_all(d)[k]),
        hex_number(upper_all(d)) == hex_number(d),
    decreases d.len(),
{
    let u = upper_all(d);
    if d.len() > 0 {
        let c = d.last();
        assert(crate::lexer::is_hex_digit(c));
        lemma_upper_digits(d.drop_last());
        assert(u.drop_last() =~= upper_all(d.drop_last()));
        assert(u.last() == upper(c));
        assert(hex_digit_value(upper(c)) == hex_digit_value(c));
    }
    assert forall|k: int| 0 <= k < d.len() implies is_upper_hex_digit(#[trigger] u[k]) by {
        assert(crate::lexer::is_hex_digit(d[k]));
    }
}

/// The operand written for a literal is its digits upper-cased, without the
/// prefix: upper-case hexadecimal digits that denote the literal's value.
pub proof fn lemma_operand_value(lit: Seq<char>)
    requires
        literal_value(lit) is Some,
    ensures
        operand_digits(lit).len() == hex_digits(lit).len(),
        forall|k: int|
            0 <= k < operand_digits(lit).len() ==> is_upper_hex_digit(#[trigger] operand_digits(lit)[k]),
        hex_number(operand_digits(lit)) == literal_value(lit)->0,
{
    lemma_upper_digits(hex_digits(lit));
}

/// A binary operation on a register other than the accumulator is exactly three
/// lines: a move into the accumulator, the operation, and a move back; on the
/// accumulator itself it is the operation alone.
pub proof fn lemma_binary_op_lines(
    register: Seq<char>,
    operator: BinaryOperator,
    vars: Seq<Seq<char>>,
    label: nat,
)
    ensures
        emit_statement(StatementView::BinaryOp { register, operator }, vars, label) == (
            if register == "A"@ {
                operator_instruction(operator)
            } else {
                "MOV A,"@ + register + ";\n"@ + operator_instruction(operator) + "MOV "@ + register
                    + ",A;\n"@
            },
            label,
        ),
{
}

/// An `if` whose right operand stands for the accumulator compares with the
/// immediate zero, never with the accumulator as a register operand.
pub proof fn lemma_compare_with_accumulator(
    left: Seq<char>,
    condition: Condition,
    right: Seq<char>,
    body: Seq<StatementView>,
    vars: Seq<Seq<char>>,
    label: nat,
)
    requires
        resolve(vars, right) == "A"@,
    ensures
        emit_statement(StatementView::If { left, condition, right, body }, vars, label).0 == (
            if resolve(vars, left) == "A"@ {
                Seq::empty()
            } else {
                "MOV A,"@ + resolve(vars, left) + ";\n"@
            }) + "CPI 00H;\n"@ + jumps(condition, label) + emit_from(body, 0, vars, label + 1).0
            + skip_ref(label, ":\n"@),
{
}

/// Comparing a name with itself, where it stands for the accumulator, emits the
/// comparison with the immediate zero and no move.
pub proof fn lemma_self_comparison(
    x: Seq<char>,
    condition: Condition,
    body: Seq<StatementView>,
    vars: Seq<Seq<char>>,
    label: nat,
)
    requires
        resolve(vars, x) == "A"@,
    ensures
        emit_statement(StatementView::If { left: x, condition, right: x, body }, vars, label).0
            == "CPI 00H;\n"@ + jumps(condition, label) + emit_from(body, 0, vars, label + 1).0
            + skip_ref(label, ":\n"@),
{
    assert(Seq::<char>::empty() + "CPI 00H;\n"@ == "CPI 00H;\n"@);
}

/// The ids that the `if`s of `s` take, in the order in which they are emitted,
/// when the first takes `label`.
pub open spec fn if_ids(s: StatementView, label: nat) -> Seq<nat>
    decreases s, 0nat,
{
    match s {
        StatementView::If { body, .. } => seq![label] + if_ids_from(body, 0, label + 1),
        _ => Seq::empty(),
    }
}

/// The ids that the `if`s of `ss[k..]` take, in order, when the first takes `label`.
pub open spec fn if_ids_from(ss: Seq<StatementView>, k: int, label: nat) -> Seq<nat>
    decreases ss, ss.len() - k,
{
    if k < 0 || k >= ss.len() {
        Seq::empty()
    } else {
        if_ids(ss[k], label) + if_ids_from(ss, k + 1, label + ifs_in(ss[k]))
    }
}

/// The ids from `label` on, one for each of `n` ifs.
pub open spec fn id_range(label: nat, n: nat) -> Seq<nat> {
    Seq::new(n, |m: int| (label + m) as nat)
}

proof fn lemma_if_ids(s: StatementView, label: nat)
    ensures
        if_ids(s, label) == id_range(label, ifs_in(s)),
    decreases s, 0nat,
{
    match s {
        StatementView::If { body, .. } => {
            lemma_if_ids_from(body, 0, label + 1);
            assert(if_ids(s, label) =~= id_range(label, ifs_in(s)));
        },
        _ => {
            assert(if_ids(s, label) =~= id_range(label, ifs_in(s)));
        },
    }
}

proof fn lemma_if_ids_from(ss: Seq<StatementView>, k: int, label: nat)
    ensures
        if_ids_from(ss, k, label) == id_range(label, ifs_from(ss, k)),
    decreases ss, ss.len() - k,
{
    if 0 <= k < ss.len() {
        lemma_if_ids(ss[k], label);
        lemma_if_ids_from(ss, k + 1, label + ifs_in(ss[k]));
    }
    assert(if_ids_from(ss, k, label) =~= id_range(label, ifs_from(ss, k)));
}

/// Each `if` of a program takes its own id: the ids are 0, 1, 2, ... in the order
/// in which the `if`s are emitted, nested and sibling ones alike, so no two are
/// equal. An `if` with id `label` names that id in its jumps and in its skip
/// label, and the ids of its body follow it.
pub proof fn lemma_unique_labels(ss: Seq<StatementView>)
    ensures
        if_ids_from(ss, 0, 0) == id_range(0, ifs_from(ss, 0)),
        forall|a: int, b: int|
            0 <= a < b < if_ids_from(ss, 0, 0).len() ==> if_ids_from(ss, 0, 0)[a] != if_ids_from(
                ss,
                0,
                0,
            )[b],
        forall|
            left: Seq<char>,
            condition: Condition,
            right: Seq<char>,
            body: Seq<StatementView>,
            vars: Seq<Seq<char>>,
            label: nat,
        |
            #![trigger emit_statement(StatementView::If { left, condition, right, body }, vars, label)]
            emit_statement(StatementView::If { left, condition, right, body }, vars, label) == (
                compare_text(resolve(vars, left), resolve(vars, right)) + jumps(condition, label)
                    + emit_from(body, 0, vars, label + 1).0 + skip_ref(label, ":\n"@),
                label + 1 + ifs_from(body, 0),
            ),
{
    lemma_if_ids_from(ss, 0, 0);
    assert forall|
        left: Seq<char>,
        condition: Condition,
        right: Seq<char>,
        body: Seq<StatementView>,
        vars: Seq<Seq<char>>,
        label: nat,
    |
        #![trigger emit_statement(StatementView::If { left, condition, right, body }, vars, label)]
        emit_statement(StatementView::If { left, condition, right, body }, vars, label) == (
            compare_text(resolve(vars, left), resolve(vars, right)) + jumps(condition, label)
                + emit_from(body, 0, vars, label + 1).0 + skip_ref(label, ":\n"@),
            label + 1 + ifs_from(body, 0),
        ) by {
        lemma_labels_from(body, 0, vars, label + 1);
    }
}

// ---- properties of the allocation table ----

pub open spec fn no_duplicates(vs: Seq<Seq<char>>) -> bool {
    forall|a: int, b: int| 0 <= a < b < vs.len() ==> vs[a] != vs[b]
}

/// Where the first element is left off, every other name moves one place forward.
proof fn lemma_position_drop_first(xs: Seq<Seq<char>>, y: Seq<char>)
    requires
        xs.len() > 0,
        y != xs[0],
    ensures
        match position(xs.drop_first(), y) {
            Some(p) => position(xs, y) == Some(p + 1),
            None => position(xs, y) is None,
        },
{
    let t = xs.drop_first();
    lemma_position_from_bounds(t, y, 0);
    lemma_position_from_bounds(xs, y, 0);
    match position(t, y) {
        Some(p) => {
            assert(xs[p + 1] == t[p]);
            assert forall|q: int| 0 <= q < p + 1 implies xs[q] != y by {
                if q > 0 {
                    assert(xs[q] == t[q - 1]);
                }
            }
            lemma_position_is(xs, y, p + 1);
        },
        None => {
            match position(xs, y) {
                Some(p) => {
                    assert(t[p - 1] == xs[p]);
                },
                None => {},
            }
        },
    }
}

/// What adding names appends: names of `xs` that were not known, each once, in
/// the order of their first places in `xs`.
proof fn lemma_add_names_order(known: Seq<Seq<char>>, xs: Seq<Seq<char>>)
    requires
        no_duplicates(known),
    ensures
        no_duplicates(add_names(known, xs)),
        forall|k: int|
            known.len() <= k < add_names(known, xs).len() ==> position(xs, add_names(known, xs)[k]) is Some
                && position(known, #[trigger] add_names(known, xs)[k]) is None,
        forall|a: int, b: int|
            known.len() <= a < b < add_names(known, xs).len() ==> position(
                xs,
                #[trigger] add_names(known, xs)[a],
            )->0 < position(xs, #[trigger] add_names(known, xs)[b])->0,
    decreases xs.len(),
{
    let r = add_names(known, xs);
    lemma_add_names(known, xs);
    if xs.len() > 0 {
        let x0 = xs[0];
        let t = xs.drop_first();
        let k1 = add_name(known, x0);
        lemma_position_from_bounds(known, x0, 0);
        if position(known, x0) is None {
            assert forall|a: int, b: int| 0 <= a < b < k1.len() implies k1[a] != k1[b] by {
                if b == known.len() {
                    assert(k1[a] == known[a]);
                }
            }
        }
        lemma_add_names_order(k1, t);
        lemma_add_names(k1, t);
        assert(r == add_names(k1, t));
        lemma_position_is(xs, x0, 0);
        assert forall|k: int| k1.len() <= k < r.len() implies position(xs, r[k]) is Some && position(
            known,
            #[trigger] r[k],
        ) is None && r[k] != x0 && position(xs, r[k])->0 == position(t, r[k])->0 + 1 by {
            lemma_position_push(known, x0, r[k]);
            if r[k] == x0 {
                assert(position(k1, x0) is Some);
            }
            lemma_position_drop_first(xs, r[k]);
        }
        if position(known, x0) is None {
            assert(r.subrange(0, k1.len() as int) == k1);
            assert(r[known.len() as int] == k1[known.len() as int]);
        }
        assert forall|a: int, b: int| known.len() <= a < b < r.len() implies position(
            xs,
            #[trigger] r[a],
        )->0 < position(xs, #[trigger] r[b])->0 by {
            assert(position(xs, r[b])->0 == position(t, r[b])->0 + 1);
            if a >= k1.len() {
                assert(position(xs, r[a])->0 == position(t, r[a])->0 + 1);
                assert(add_names(k1, t)[a] == r[a]);
                assert(add_names(k1, t)[b] == r[b]);
                assert(position(t, add_names(k1, t)[a])->0 < position(t, add_names(k1, t)[b])->0);
            } else {
                assert(position(known, x0) is None);
                assert(k1 == known.push(x0));
                assert(r.subrange(0, k1.len() as int) == k1);
                assert(r[a] == k1[a]);
                assert(r[a] == x0);
                assert(position(xs, x0) == Some(0int));
                assert(add_names(k1, t)[b] == r[b]);
                assert(position(t, r[b]) is Some);
                lemma_position_from_bounds(t, r[b], 0);
            }
        }
    }
}

/// The table of a program lists each variable that it assigns, nested bodies
/// included, exactly once and in the order of first assignment; the variable at
/// place `k` has address `BASE_ADDRESS + k`, so addresses rise by one from the
/// base; the first `POOL_SIZE` variables are bound to the pool's registers in
/// pool order and the others to none. Since address and register depend on the
/// name alone, an assignment to a variable seen before reuses both.
pub proof fn lemma_static_allocation(ss: Seq<StatementView>)
    ensures
        no_duplicates(static_variables(ss)),
        all_known(static_variables(ss), assigned_from(ss, 0)),
        forall|k: int|
            0 <= k < static_variables(ss).len() ==> position(
                assigned_from(ss, 0),
                #[trigger] static_variables(ss)[k],
            ) is Some,
        forall|a: int, b: int|
            0 <= a < b < static_variables(ss).len() ==> position(
                assigned_from(ss, 0),
                #[trigger] static_variables(ss)[a],
            )->0 < position(assigned_from(ss, 0), #[trigger] static_variables(ss)[b])->0,
        forall|k: int|
            0 <= k < static_variables(ss).len() ==> address_of(
                static_variables(ss),
                #[trigger] static_variables(ss)[k],
            ) == Some((BASE_ADDRESS + k) as nat),
        forall|k: int|
            0 <= k < static_variables(ss).len() ==> register_of(
                static_variables(ss),
                #[trigger] static_variables(ss)[k],
            ) == if k < POOL_SIZE {
                Some(pool_register(k))
            } else {
                None
            },
        forall|a: int, b: int|
            0 <= a < b < POOL_SIZE ==> pool_register(a) != pool_register(b),
{
    let vs = static_variables(ss);
    let names = assigned_from(ss, 0);
    lemma_add_names(Seq::empty(), names);
    lemma_add_names_order(Seq::empty(), names);
    assert forall|k: int| 0 <= k < vs.len() implies position(vs, #[trigger] vs[k]) == Some(k) by {
        lemma_position_is(vs, vs[k], k);
    }
    assert forall|a: int, b: int| 0 <= a < b < POOL_SIZE implies pool_register(a) != pool_register(b) by {
        assert(pool_register(a)[0] != pool_register(b)[0]);
    }
}

} // verus!
