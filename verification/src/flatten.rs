//! The elaborator: reduces a schematic to an equivalent flat netlist of
//! primitive `nand` instructions.
//!
//! Every instantiation of a user-defined schematic is replaced by that
//! schematic's body, with the callee's formal input and output pins bound
//! positionally to the caller's actual wire names and every local pin renamed
//! to a freshly generated name.  The generated names share a reserved prefix
//! containing a `.`, a character no identifier of the source language may
//! contain, so one flatten invocation can never capture a source wire.

use vstd::prelude::*;

use crate::schematic::{
    find_schematic, pin_index, plain_name, InstrV, Instruction, Pin, PinV, Role, Schematic,
    SchematicV,
};

verus! {

/// The name of the primitive gate, the base case of the expansion.
pub open spec fn nand_name() -> Seq<char> {
    "nand"@
}

/// The decimal digit `d` as a character.
pub open spec fn digit_char(d: nat) -> char {
    if d == 0 {
        '0'
    } else if d == 1 {
        '1'
    } else if d == 2 {
        '2'
    } else if d == 3 {
        '3'
    } else if d == 4 {
        '4'
    } else if d == 5 {
        '5'
    } else if d == 6 {
        '6'
    } else if d == 7 {
        '7'
    } else if d == 8 {
        '8'
    } else {
        '9'
    }
}

/// The decimal digits of `n`, most significant first, without leading zeros.
pub open spec fn dec_digits(n: nat) -> Seq<char>
    decreases n,
{
    if n < 10 {
        seq![digit_char(n)]
    } else {
        dec_digits(n / 10).push(digit_char(n % 10))
    }
}

/// The `k`-th generated wire name.  The reserved prefix ends in `.`, which no
/// identifier of the source language contains.
pub open spec fn gen_name(k: nat) -> Seq<char> {
    "_t."@ + dec_digits(k)
}

/// Mints the globally unique names given to the local wires of inlined
/// instantiations: `_t.0`, `_t.1`, … in order.  The counter is owned by one
/// flatten invocation, so independent flattenings cannot interfere.
#[derive(Debug)]
pub struct NameGenerator {
    pub counter: u64,
}

/// The exact characters of `d` as a one-digit string slice.
fn digit_str(d: u64) -> (r: &'static str)
    requires
        d < 10,
    ensures
        r@ == seq![digit_char(d as nat)],
{
    proof {
        reveal_strlit("0");
        reveal_strlit("1");
        reveal_strlit("2");
        reveal_strlit("3");
        reveal_strlit("4");
        reveal_strlit("5");
        reveal_strlit("6");
        reveal_strlit("7");
        reveal_strlit("8");
        reveal_strlit("9");
    }
    let r: &'static str = if d == 0 {
        "0"
    } else if d == 1 {
        "1"
    } else if d == 2 {
        "2"
    } else if d == 3 {
        "3"
    } else if d == 4 {
        "4"
    } else if d == 5 {
        "5"
    } else if d == 6 {
        "6"
    } else if d == 7 {
        "7"
    } else if d == 8 {
        "8"
    } else {
        "9"
    };
    proof {
        assert(r@ =~= seq![digit_char(d as nat)]);
    }
    r
}

/// Appends the decimal digits of `n` to `s`.
fn append_dec_digits(s: &mut String, n: u64)
    ensures
        final(s)@ == old(s)@ + dec_digits(n as nat),
    decreases n,
{
    if n < 10 {
        s.append(digit_str(n));
    } else {
        append_dec_digits(s, n / 10);
        s.append(digit_str(n % 10));
        proof {
            assert(final(s)@ =~= old(s)@ + dec_digits(n as nat));
        }
    }
}

impl NameGenerator {
    /// A fresh generator whose first name will be `gen_name(0)`.
    pub fn new() -> (r: Self)
        ensures
            r.counter == 0,
    {
        NameGenerator { counter: 0 }
    }

    /// The next generated name, never repeated by this generator.
    pub fn get_next_name(&mut self) -> (r: String)
        requires
            old(self).counter < u64::MAX,
        ensures
            final(self).counter == old(self).counter + 1,
            r@ == gen_name(old(self).counter as nat),
    {
        let mut s = String::from_str("_t.");
        append_dec_digits(&mut s, self.counter);
        proof {
            assert(s@ =~= gen_name(self.counter as nat));
        }
        self.counter = self.counter + 1;
        s
    }
}

/// Why a flatten invocation failed.
#[derive(Debug)]
pub enum FlattenError {
    /// An instruction referenced a schematic name absent from the library.
    UndefinedSchematic { name: String, referenced_in: String },
    /// A schematic instantiated itself, directly or transitively, so the
    /// expansion would never terminate.
    Cycle { name: String },
    /// An instruction's binding count disagrees with the referenced
    /// schematic's input-plus-output pin count.
    ArityMismatch { schematic: String, expected: usize, found: usize },
    /// The fresh-name supply ran out.
    TooManyLocals,
}

/// Mathematical model of a [`FlattenError`].
#[verifier::ext_equal]
pub ghost enum FlatErrV {
    UndefinedSchematic { name: Seq<char>, referenced_in: Seq<char> },
    Cycle { name: Seq<char> },
    ArityMismatch { schematic: Seq<char>, expected: nat, found: nat },
    TooManyLocals,
}

impl View for FlattenError {
    type V = FlatErrV;

    open spec fn view(&self) -> FlatErrV {
        match self {
            FlattenError::UndefinedSchematic { name, referenced_in } => {
                FlatErrV::UndefinedSchematic { name: name@, referenced_in: referenced_in@ }
            },
            FlattenError::Cycle { name } => FlatErrV::Cycle { name: name@ },
            FlattenError::ArityMismatch { schematic, expected, found } => {
                FlatErrV::ArityMismatch {
                    schematic: schematic@,
                    expected: *expected as nat,
                    found: *found as nat,
                }
            },
            FlattenError::TooManyLocals => FlatErrV::TooManyLocals,
        }
    }
}

/// The names of the expansions in progress on the call stack: each one names
/// a schematic of the library, and none repeats.
pub open spec fn stack_ok(lib: Seq<SchematicV>, stack: Seq<Seq<char>>) -> bool {
    &&& stack.no_duplicates()
    &&& forall|i: int|
        0 <= i < stack.len() ==> find_schematic(lib, #[trigger] stack[i]) is Some
}

/// All the schematic names of a library, in order.
pub open spec fn schematic_names(lib: Seq<SchematicV>) -> Seq<Seq<char>> {
    lib.map_values(|s: SchematicV| s.name)
}

/// A name is found in a library exactly when some schematic carries it.
pub proof fn lemma_find_means_contains(lib: Seq<SchematicV>, name: Seq<char>)
    ensures
        (find_schematic(lib, name) is Some) == schematic_names(lib).contains(name),
    decreases lib.len(),
{
    if lib.len() == 0 {
        assert(!schematic_names(lib).contains(name));
    } else if lib[0].name == name {
        assert(schematic_names(lib)[0] == name);
        assert(schematic_names(lib).contains(name));
    } else {
        lemma_find_means_contains(lib.drop_first(), name);
        assert(schematic_names(lib.drop_first()) =~= schematic_names(lib).drop_first());
        if schematic_names(lib).contains(name) {
            let i = choose|i: int|
                0 <= i < schematic_names(lib).len() && schematic_names(lib)[i] == name;
            assert(i != 0);
            assert(schematic_names(lib).drop_first()[i - 1] == name);
            assert(schematic_names(lib.drop_first()).contains(name));
        }
        if schematic_names(lib.drop_first()).contains(name) {
            let i = choose|i: int|
                0 <= i < schematic_names(lib.drop_first()).len() && schematic_names(
                    lib.drop_first(),
                )[i] == name;
            assert(schematic_names(lib)[i + 1] == name);
        }
    }
}

/// An in-progress stack can never hold more names than the library holds
/// schematics: the measure that bounds the expansion's recursion depth.
pub proof fn lemma_stack_bound(lib: Seq<SchematicV>, stack: Seq<Seq<char>>)
    requires
        stack_ok(lib, stack),
    ensures
        stack.len() <= lib.len(),
{
    broadcast use vstd::seq_lib::seq_to_set_is_finite;

    let names = schematic_names(lib);
    stack.unique_seq_to_set();
    names.lemma_cardinality_of_set();
    assert forall|x: Seq<char>| stack.to_set().contains(x) implies names.to_set().contains(
        x,
    ) by {
        lemma_find_means_contains(lib, x);
    }
    vstd::set_lib::lemma_len_subset(stack.to_set(), names.to_set());
    assert(names.len() == lib.len());
}

/// The number of local pins among the first `j` pins.
pub open spec fn locals_before(pins: Seq<PinV>, j: int) -> nat {
    pins.take(j).filter(|p: PinV| p.role == Role::Local).len()
}

/// The concrete wire the formal pin at index `j` stands for: a local pin gets
/// the next fresh name in pin order; an input or output pin gets the caller's
/// actual binding at the matching interface position.
pub open spec fn pin_target(pins: Seq<PinV>, actuals: Seq<Seq<char>>, base: nat, j: int) -> Seq<
    char,
> {
    if pins[j].role == Role::Local {
        gen_name(base + locals_before(pins, j))
    } else {
        actuals[j - locals_before(pins, j)]
    }
}

/// What the substitution maps a bound name to: the target of the first pin of
/// that name, or the name itself if no pin carries it.
pub open spec fn subst_name(
    pins: Seq<PinV>,
    actuals: Seq<Seq<char>>,
    base: nat,
    b: Seq<char>,
) -> Seq<char> {
    match pin_index(pins, b) {
        Some(j) => pin_target(pins, actuals, base, j),
        None => b,
    }
}

/// One body instruction of the callee, rewritten through the substitution.
pub open spec fn rewrite_instr(
    i: InstrV,
    pins: Seq<PinV>,
    actuals: Seq<Seq<char>>,
    base: nat,
) -> InstrV {
    InstrV {
        name: i.name,
        bindings: i.bindings.map_values(|b: Seq<char>| subst_name(pins, actuals, base, b)),
    }
}

/// The callee's whole body, rewritten through the substitution.
pub open spec fn rewrite_body(
    body: Seq<InstrV>,
    pins: Seq<PinV>,
    actuals: Seq<Seq<char>>,
    base: nat,
) -> Seq<InstrV> {
    body.map_values(|i: InstrV| rewrite_instr(i, pins, actuals, base))
}

/// Expands one instruction into primitive instructions.  `caller` names the
/// schematic whose body the instruction stands in (for diagnostics), `stack`
/// the expansions in progress, and `c` the next fresh-name index.  On success
/// the result carries the primitive instructions and the next unused index.
pub open spec fn spec_expand_instr(
    i: InstrV,
    caller: Seq<char>,
    lib: Seq<SchematicV>,
    stack: Seq<Seq<char>>,
    c: nat,
) -> Result<(Seq<InstrV>, nat), FlatErrV>
    decreases lib.len() + 1 - stack.len(), 0nat, 0nat,
        when stack_ok(lib, stack)
{
    if i.name == nand_name() {
        if i.bindings.len() == 3 {
            Ok((seq![i], c))
        } else {
            Err(
                FlatErrV::ArityMismatch {
                    schematic: nand_name(),
                    expected: 3,
                    found: i.bindings.len(),
                },
            )
        }
    } else {
        match find_schematic(lib, i.name) {
            None => Err(FlatErrV::UndefinedSchematic { name: i.name, referenced_in: caller }),
            Some(s) => {
                if stack.contains(i.name) {
                    Err(FlatErrV::Cycle { name: i.name })
                } else if i.bindings.len() != s.io_count() {
                    Err(
                        FlatErrV::ArityMismatch {
                            schematic: i.name,
                            expected: s.io_count(),
                            found: i.bindings.len(),
                        },
                    )
                } else if c + s.locals_count() > u64::MAX {
                    Err(FlatErrV::TooManyLocals)
                } else {
                    proof {
                        lemma_stack_bound(lib, stack.push(i.name));
                    }
                    spec_expand_body(
                        rewrite_body(s.body, s.pins, i.bindings, c),
                        i.name,
                        lib,
                        stack.push(i.name),
                        c + s.locals_count(),
                    )
                }
            },
        }
    }
}

/// Expands a sequence of instructions in order, threading the fresh-name
/// index through and concatenating the primitive results.
pub open spec fn spec_expand_body(
    body: Seq<InstrV>,
    caller: Seq<char>,
    lib: Seq<SchematicV>,
    stack: Seq<Seq<char>>,
    c: nat,
) -> Result<(Seq<InstrV>, nat), FlatErrV>
    decreases lib.len() + 1 - stack.len(), 1nat, body.len(),
        when stack_ok(lib, stack)
{
    if body.len() == 0 {
        Ok((Seq::empty(), c))
    } else {
        match spec_expand_instr(body[0], caller, lib, stack, c) {
            Err(e) => Err(e),
            Ok((flat, c1)) => match spec_expand_body(body.drop_first(), caller, lib, stack, c1) {
                Err(e) => Err(e),
                Ok((rest, c2)) => Ok((flat + rest, c2)),
            },
        }
    }
}

/// The number of input and output pins among the first `j` pins.
pub open spec fn nonlocals_before(pins: Seq<PinV>, j: int) -> nat {
    pins.take(j).filter(|p: PinV| p.role != Role::Local).len()
}

/// An empty pin prefix holds no pin of either kind.
pub proof fn lemma_role_counts_zero(pins: Seq<PinV>)
    ensures
        locals_before(pins, 0) == 0,
        nonlocals_before(pins, 0) == 0,
{
    reveal(Seq::filter);
    assert(pins.take(0) =~= Seq::<PinV>::empty());
}

/// Extending a pin prefix by one pin raises exactly one of the two counts.
pub proof fn lemma_role_counts_step(pins: Seq<PinV>, j: int)
    requires
        0 <= j < pins.len(),
    ensures
        locals_before(pins, j + 1) == locals_before(pins, j) + (if pins[j].role == Role::Local {
            1nat
        } else {
            0nat
        }),
        nonlocals_before(pins, j + 1) == nonlocals_before(pins, j) + (if pins[j].role
            == Role::Local {
            0nat
        } else {
            1nat
        }),
{
    reveal(Seq::filter);
    assert(pins.take(j + 1).drop_last() =~= pins.take(j));
    assert(pins.take(j + 1).last() == pins[j]);
}

/// The two counts partition a prefix, and grow no faster than it.
pub proof fn lemma_roles_partition(pins: Seq<PinV>, j: int)
    requires
        0 <= j <= pins.len(),
    ensures
        locals_before(pins, j) + nonlocals_before(pins, j) == j,
    decreases j,
{
    if j == 0 {
        lemma_role_counts_zero(pins);
    } else {
        lemma_roles_partition(pins, j - 1);
        lemma_role_counts_step(pins, j - 1);
    }
}

/// Both counts are monotone in the prefix length.
pub proof fn lemma_role_counts_mono(pins: Seq<PinV>, j1: int, j2: int)
    requires
        0 <= j1 <= j2 <= pins.len(),
    ensures
        locals_before(pins, j1) <= locals_before(pins, j2),
        nonlocals_before(pins, j1) <= nonlocals_before(pins, j2),
    decreases j2 - j1,
{
    if j1 < j2 {
        lemma_role_counts_mono(pins, j1, j2 - 1);
        lemma_role_counts_step(pins, j2 - 1);
    }
}

/// Over the whole pin list the two counts are the schematic's local count and
/// interface count.
pub proof fn lemma_role_counts_total(s: SchematicV)
    ensures
        locals_before(s.pins, s.pins.len() as int) == s.locals_count(),
        nonlocals_before(s.pins, s.pins.len() as int) == s.io_count(),
{
    assert(s.pins.take(s.pins.len() as int) =~= s.pins);
}

/// A linear scan that stops at the first pin named `b` computes `pin_index`.
proof fn lemma_pin_index_found(pins: Seq<PinV>, b: Seq<char>, i: int)
    requires
        0 <= i < pins.len(),
        pins[i].name == b,
        forall|j: int| 0 <= j < i ==> pins[j].name != b,
    ensures
        pin_index(pins, b) == Some(i),
    decreases i,
{
    if i > 0 {
        assert(forall|j: int|
            0 <= j < i - 1 ==> pins.drop_first()[j] == pins[j + 1] && pins[j + 1].name != b);
        lemma_pin_index_found(pins.drop_first(), b, i - 1);
    }
}

/// Whatever index `pin_index` yields lies in range and names the pin.
pub proof fn lemma_pin_index_range(pins: Seq<PinV>, b: Seq<char>)
    ensures
        match pin_index(pins, b) {
            Some(j) => 0 <= j < pins.len() && pins[j].name == b,
            None => true,
        },
    decreases pins.len(),
{
    if pins.len() > 0 && pins[0].name != b {
        lemma_pin_index_range(pins.drop_first(), b);
    }
}

/// A scan that matches no pin means `pin_index` finds none either.
proof fn lemma_pin_index_none(pins: Seq<PinV>, b: Seq<char>)
    requires
        forall|j: int| 0 <= j < pins.len() ==> pins[j].name != b,
    ensures
        pin_index(pins, b) is None,
    decreases pins.len(),
{
    if pins.len() > 0 {
        assert(forall|j: int|
            0 <= j < pins.len() - 1 ==> pins.drop_first()[j] == pins[j + 1] && pins[j + 1].name
                != b);
        lemma_pin_index_none(pins.drop_first(), b);
    }
}

/// Prepends already-expanded instructions to the outcome of expanding the
/// rest of a body.
pub open spec fn expand_state(
    acc: Seq<InstrV>,
    rest: Result<(Seq<InstrV>, nat), FlatErrV>,
) -> Result<(Seq<InstrV>, nat), FlatErrV> {
    match rest {
        Ok((flat, c)) => Ok((acc + flat, c)),
        Err(e) => Err(e),
    }
}

/// The model of [`Schematic::flatten`]: the schematic's body expanded from a
/// fresh generator, with the name and the pin interface kept.
pub open spec fn spec_flatten(s: SchematicV, lib: Seq<SchematicV>) -> Result<
    SchematicV,
    FlatErrV,
> {
    match spec_expand_body(s.body, s.name, lib, Seq::empty(), 0) {
        Err(e) => Err(e),
        Ok((flat, _c)) => Ok(SchematicV { name: s.name, pins: s.pins, body: flat }),
    }
}

/// A decimal rendering has at least one digit.
proof fn lemma_dec_digits_len(n: nat)
    ensures
        dec_digits(n).len() >= 1,
    decreases n,
{
    if n >= 10 {
        lemma_dec_digits_len(n / 10);
    }
}

/// Two numbers with the same decimal rendering are the same number.
proof fn lemma_dec_digits_injective(a: nat, b: nat)
    requires
        dec_digits(a) == dec_digits(b),
    ensures
        a == b,
    decreases a,
{
    lemma_dec_digits_len(a / 10);
    lemma_dec_digits_len(b / 10);
    if a < 10 && b < 10 {
        assert(dec_digits(a)[0] == digit_char(a));
        assert(dec_digits(b)[0] == digit_char(b));
    } else if a < 10 {
        assert(dec_digits(a).len() == 1);
        assert(dec_digits(b).len() == dec_digits(b / 10).len() + 1);
    } else if b < 10 {
        assert(dec_digits(b).len() == 1);
        assert(dec_digits(a).len() == dec_digits(a / 10).len() + 1);
    } else {
        assert(dec_digits(a).last() == digit_char(a % 10));
        assert(dec_digits(b).last() == digit_char(b % 10));
        assert(a % 10 == b % 10);
        assert(dec_digits(a).drop_last() =~= dec_digits(a / 10));
        assert(dec_digits(b).drop_last() =~= dec_digits(b / 10));
        lemma_dec_digits_injective(a / 10, b / 10);
    }
}

/// Two distinct indices give two distinct generated names: within one
/// flatten invocation no generated name is ever repeated.
pub proof fn lemma_gen_name_injective(i: nat, j: nat)
    requires
        gen_name(i) == gen_name(j),
    ensures
        i == j,
{
    reveal_strlit("_t.");
    assert(gen_name(i).len() == 3 + dec_digits(i).len());
    assert(gen_name(j).len() == 3 + dec_digits(j).len());
    assert forall|k: int| 0 <= k < dec_digits(i).len() implies dec_digits(i)[k] == dec_digits(
        j,
    )[k] by {
        assert(gen_name(i)[3 + k] == dec_digits(i)[k]);
        assert(gen_name(j)[3 + k] == dec_digits(j)[k]);
    }
    assert(dec_digits(i).len() == gen_name(i).len() - 3);
    assert(dec_digits(i) =~= dec_digits(j));
    lemma_dec_digits_injective(i, j);
}

/// No generated name collides with a plain name: the reserved prefix `_t.`
/// puts a `.` in every generated name, which no source identifier contains.
pub proof fn lemma_gen_name_reserved(k: nat, n: Seq<char>)
    requires
        plain_name(n),
    ensures
        gen_name(k) != n,
{
    reveal_strlit("_t.");
    lemma_dec_digits_len(k);
    assert(gen_name(k)[2] == '.');
    if gen_name(k) == n {
        assert(n[2] == '.');
    }
}

/// Pushing a fresh library name onto a well-formed stack keeps it
/// well-formed.
pub proof fn lemma_stack_ok_push(lib: Seq<SchematicV>, stack: Seq<Seq<char>>, name: Seq<char>)
    requires
        stack_ok(lib, stack),
        !stack.contains(name),
        find_schematic(lib, name) is Some,
    ensures
        stack_ok(lib, stack.push(name)),
{
    assert(forall|i: int| 0 <= i < stack.len() ==> stack[i] != name);
    assert(stack.push(name).no_duplicates());
    assert forall|i: int| 0 <= i < stack.push(name).len() implies find_schematic(
        lib,
        #[trigger] stack.push(name)[i],
    ) is Some by {
        if i < stack.len() {
            assert(stack.push(name)[i] == stack[i]);
        }
    }
}

/// A flattened schematic keeps the name and the whole pin interface of the
/// schematic it came from: the same inputs and the same outputs, in the same
/// declared order.
pub proof fn lemma_flatten_preserves_interface(s: SchematicV, lib: Seq<SchematicV>, f: SchematicV)
    requires
        spec_flatten(s, lib) == Ok::<SchematicV, FlatErrV>(f),
    ensures
        f.name == s.name,
        f.pins == s.pins,
{
}

/// Helper for [`lemma_flatten_all_primitive`]: expanding one instruction
/// yields only three-pin primitive instructions.
proof fn lemma_expand_instr_primitive(
    i: InstrV,
    caller: Seq<char>,
    lib: Seq<SchematicV>,
    stack: Seq<Seq<char>>,
    c: nat,
    out: Seq<InstrV>,
    c2: nat,
)
    requires
        stack_ok(lib, stack),
        spec_expand_instr(i, caller, lib, stack, c) == Ok::<(Seq<InstrV>, nat), FlatErrV>(
            (out, c2),
        ),
    ensures
        forall|k: int|
            0 <= k < out.len() ==> (#[trigger] out[k]).name == nand_name() && out[k].bindings.len()
                == 3,
    decreases lib.len() + 1 - stack.len(), 0nat, 0nat,
{
    if i.name == nand_name() {
    } else {
        let s = find_schematic(lib, i.name)->Some_0;
        lemma_stack_ok_push(lib, stack, i.name);
        lemma_stack_bound(lib, stack.push(i.name));
        lemma_expand_body_primitive(
            rewrite_body(s.body, s.pins, i.bindings, c),
            i.name,
            lib,
            stack.push(i.name),
            c + s.locals_count(),
            out,
            c2,
        );
    }
}

/// Helper for [`lemma_flatten_all_primitive`]: expanding a body yields only
/// three-pin primitive instructions.
proof fn lemma_expand_body_primitive(
    body: Seq<InstrV>,
    caller: Seq<char>,
    lib: Seq<SchematicV>,
    stack: Seq<Seq<char>>,
    c: nat,
    out: Seq<InstrV>,
    c2: nat,
)
    requires
        stack_ok(lib, stack),
        spec_expand_body(body, caller, lib, stack, c) == Ok::<(Seq<InstrV>, nat), FlatErrV>(
            (out, c2),
        ),
    ensures
        forall|k: int|
            0 <= k < out.len() ==> (#[trigger] out[k]).name == nand_name() && out[k].bindings.len()
                == 3,
    decreases lib.len() + 1 - stack.len(), 1nat, body.len(),
{
    if body.len() == 0 {
    } else {
        let (flat, c1) = spec_expand_instr(body[0], caller, lib, stack, c)->Ok_0;
        let (rest, _cr) = spec_expand_body(body.drop_first(), caller, lib, stack, c1)->Ok_0;
        lemma_expand_instr_primitive(body[0], caller, lib, stack, c, flat, c1);
        lemma_expand_body_primitive(body.drop_first(), caller, lib, stack, c1, rest, c2);
        assert(forall|k: int|
            0 <= k < out.len() ==> out[k] == if k < flat.len() {
                flat[k]
            } else {
                rest[k - flat.len()]
            });
    }
}

/// Every instruction of a flattened schematic's body references only the
/// primitive gate and binds exactly two inputs and one output.
pub proof fn lemma_flatten_all_primitive(s: SchematicV, lib: Seq<SchematicV>, f: SchematicV)
    requires
        spec_flatten(s, lib) == Ok::<SchematicV, FlatErrV>(f),
    ensures
        forall|k: int|
            0 <= k < f.body.len() ==> (#[trigger] f.body[k]).name == nand_name()
                && f.body[k].bindings.len() == 3,
{
    let (flat, c2) = spec_expand_body(s.body, s.name, lib, Seq::empty(), 0)->Ok_0;
    lemma_expand_body_primitive(s.body, s.name, lib, Seq::empty(), 0, flat, c2);
}

/// Helper for [`lemma_flatten_primitive_identity`]: a body that is already
/// primitive expands to itself, with no name generated.
proof fn lemma_expand_body_identity(
    body: Seq<InstrV>,
    caller: Seq<char>,
    lib: Seq<SchematicV>,
    stack: Seq<Seq<char>>,
    c: nat,
)
    requires
        stack_ok(lib, stack),
        forall|k: int|
            0 <= k < body.len() ==> (#[trigger] body[k]).name == nand_name()
                && body[k].bindings.len() == 3,
    ensures
        spec_expand_body(body, caller, lib, stack, c) == Ok::<(Seq<InstrV>, nat), FlatErrV>(
            (body, c),
        ),
    decreases body.len(),
{
    if body.len() == 0 {
        assert(body =~= Seq::<InstrV>::empty());
    } else {
        assert(spec_expand_instr(body[0], caller, lib, stack, c) == Ok::<
            (Seq<InstrV>, nat),
            FlatErrV,
        >((seq![body[0]], c)));
        lemma_expand_body_identity(body.drop_first(), caller, lib, stack, c);
        assert(seq![body[0]] + body.drop_first() =~= body);
    }
}

/// Flattening is the identity on a schematic whose body is already
/// primitive: the instructions come back verbatim, bindings unchanged, and
/// no fresh name is spent.
pub proof fn lemma_flatten_primitive_identity(s: SchematicV, lib: Seq<SchematicV>)
    requires
        forall|k: int|
            0 <= k < s.body.len() ==> (#[trigger] s.body[k]).name == nand_name()
                && s.body[k].bindings.len() == 3,
    ensures
        spec_flatten(s, lib) == Ok::<SchematicV, FlatErrV>(s),
{
    lemma_expand_body_identity(s.body, s.name, lib, Seq::empty(), 0);
    assert(SchematicV { name: s.name, pins: s.pins, body: s.body } == s);
}

/// Flattening is idempotent: flattening a flattened schematic gives it back
/// unchanged.
pub proof fn lemma_flatten_idempotent(s: SchematicV, lib: Seq<SchematicV>, f: SchematicV)
    requires
        spec_flatten(s, lib) == Ok::<SchematicV, FlatErrV>(f),
    ensures
        spec_flatten(f, lib) == Ok::<SchematicV, FlatErrV>(f),
{
    lemma_flatten_all_primitive(s, lib, f);
    lemma_flatten_primitive_identity(f, lib);
}

/// True iff some instruction of `body` binds the name `b`.
pub open spec fn body_binds(body: Seq<InstrV>, b: Seq<char>) -> bool {
    exists|k: int, p: int|
        0 <= k < body.len() && 0 <= p < body[k].bindings.len() && body[k].bindings[p] == b
}

/// True iff `b` is a name generated at an index in `[c1, c2)`.
pub open spec fn generated_in(c1: nat, c2: nat, b: Seq<char>) -> bool {
    exists|d: nat| c1 <= d < c2 && b == gen_name(d)
}

/// Every schematic of the library binds only names its pins carry, as
/// [`Schematic::new`] guarantees.
pub open spec fn lib_bound(lib: Seq<SchematicV>) -> bool {
    forall|x: int| 0 <= x < lib.len() ==> (#[trigger] lib[x]).bindings_bound()
}

/// What `find_schematic` yields is a member of the library.
proof fn lemma_find_in_lib(lib: Seq<SchematicV>, name: Seq<char>)
    requires
        find_schematic(lib, name) is Some,
    ensures
        exists|x: int| 0 <= x < lib.len() && lib[x] == find_schematic(lib, name)->Some_0,
    decreases lib.len(),
{
    if lib.len() > 0 && lib[0].name != name {
        lemma_find_in_lib(lib.drop_first(), name);
        let x = choose|x: int|
            0 <= x < lib.drop_first().len() && lib.drop_first()[x] == find_schematic(
                lib.drop_first(),
                name,
            )->Some_0;
        assert(lib[x + 1] == find_schematic(lib, name)->Some_0);
    }
}

/// Every binding of a rewritten body is a caller binding or a name generated
/// at this inlining level.
proof fn lemma_rewrite_body_names(s: SchematicV, actuals: Seq<Seq<char>>, base: nat)
    requires
        s.bindings_bound(),
        actuals.len() == s.io_count(),
    ensures
        forall|b: Seq<char>|
            #[trigger] body_binds(rewrite_body(s.body, s.pins, actuals, base), b)
                ==> actuals.contains(b) || generated_in(base, base + s.locals_count(), b),
{
    let rw = rewrite_body(s.body, s.pins, actuals, base);
    assert forall|b: Seq<char>| #[trigger] body_binds(rw, b) implies actuals.contains(b)
        || generated_in(base, base + s.locals_count(), b) by {
        let (k, p) = choose|k: int, p: int|
            0 <= k < rw.len() && 0 <= p < rw[k].bindings.len() && rw[k].bindings[p] == b;
        assert(rw[k] == rewrite_instr(s.body[k], s.pins, actuals, base));
        let b0 = s.body[k].bindings[p];
        assert(rw[k].bindings[p] == subst_name(s.pins, actuals, base, b0));
        assert(pin_index(s.pins, b0) is Some);
        lemma_pin_index_range(s.pins, b0);
        let j = pin_index(s.pins, b0)->Some_0;
        lemma_role_counts_step(s.pins, j);
        lemma_role_counts_mono(s.pins, j + 1, s.pins.len() as int);
        lemma_role_counts_total(s);
        lemma_roles_partition(s.pins, j);
        if s.pins[j].role == Role::Local {
            assert(locals_before(s.pins, j) < s.locals_count());
            assert(b == gen_name(base + locals_before(s.pins, j)));
            assert(generated_in(base, base + s.locals_count(), b));
        } else {
            assert(j - locals_before(s.pins, j) == nonlocals_before(s.pins, j));
            assert(nonlocals_before(s.pins, j) < s.io_count());
            assert(b == actuals[j - locals_before(s.pins, j)]);
            assert(actuals.contains(b));
        }
    }
}

/// Helper for [`lemma_flatten_output_names`], instruction form: every name
/// the expansion of one instruction binds is a binding of that instruction
/// or a name generated during the expansion.
proof fn lemma_expand_instr_names(
    i: InstrV,
    caller: Seq<char>,
    lib: Seq<SchematicV>,
    stack: Seq<Seq<char>>,
    c: nat,
    out: Seq<InstrV>,
    c2: nat,
)
    requires
        stack_ok(lib, stack),
        lib_bound(lib),
        spec_expand_instr(i, caller, lib, stack, c) == Ok::<(Seq<InstrV>, nat), FlatErrV>(
            (out, c2),
        ),
    ensures
        c <= c2,
        forall|b: Seq<char>|
            #[trigger] body_binds(out, b) ==> i.bindings.contains(b) || generated_in(c, c2, b),
    decreases lib.len() + 1 - stack.len(), 0nat, 0nat,
{
    if i.name == nand_name() {
        assert forall|b: Seq<char>| #[trigger] body_binds(out, b) implies i.bindings.contains(b)
            || generated_in(c, c2, b) by {
            let (k, p) = choose|k: int, p: int|
                0 <= k < out.len() && 0 <= p < out[k].bindings.len() && out[k].bindings[p] == b;
            assert(out[k] == i);
        }
    } else {
        let s = find_schematic(lib, i.name)->Some_0;
        lemma_find_in_lib(lib, i.name);
        let x = choose|x: int| 0 <= x < lib.len() && lib[x] == s;
        assert(s.bindings_bound());
        let rw = rewrite_body(s.body, s.pins, i.bindings, c);
        let cb = c + s.locals_count();
        lemma_stack_ok_push(lib, stack, i.name);
        lemma_stack_bound(lib, stack.push(i.name));
        lemma_expand_body_names(rw, i.name, lib, stack.push(i.name), cb, out, c2);
        lemma_rewrite_body_names(s, i.bindings, c);
        assert forall|b: Seq<char>| #[trigger] body_binds(out, b) implies i.bindings.contains(b)
            || generated_in(c, c2, b) by {
            if body_binds(rw, b) {
                if generated_in(c, cb, b) {
                    let d = choose|d: nat| c <= d < cb && b == gen_name(d);
                    assert(generated_in(c, c2, b));
                }
            } else {
                let d = choose|d: nat| cb <= d < c2 && b == gen_name(d);
                assert(generated_in(c, c2, b));
            }
        }
    }
}

/// Helper for [`lemma_flatten_output_names`], body form.
proof fn lemma_expand_body_names(
    body: Seq<InstrV>,
    caller: Seq<char>,
    lib: Seq<SchematicV>,
    stack: Seq<Seq<char>>,
    c: nat,
    out: Seq<InstrV>,
    c2: nat,
)
    requires
        stack_ok(lib, stack),
        lib_bound(lib),
        spec_expand_body(body, caller, lib, stack, c) == Ok::<(Seq<InstrV>, nat), FlatErrV>(
            (out, c2),
        ),
    ensures
        c <= c2,
        forall|b: Seq<char>|
            #[trigger] body_binds(out, b) ==> body_binds(body, b) || generated_in(c, c2, b),
    decreases lib.len() + 1 - stack.len(), 1nat, body.len(),
{
    if body.len() == 0 {
        assert(forall|b: Seq<char>| !body_binds(out, b));
    } else {
        let (flat, c1) = spec_expand_instr(body[0], caller, lib, stack, c)->Ok_0;
        let (rest, _cr) = spec_expand_body(body.drop_first(), caller, lib, stack, c1)->Ok_0;
        lemma_expand_instr_names(body[0], caller, lib, stack, c, flat, c1);
        lemma_expand_body_names(body.drop_first(), caller, lib, stack, c1, rest, c2);
        assert forall|b: Seq<char>| #[trigger] body_binds(out, b) implies body_binds(body, b)
            || generated_in(c, c2, b) by {
            let (k, p) = choose|k: int, p: int|
                0 <= k < out.len() && 0 <= p < out[k].bindings.len() && out[k].bindings[p] == b;
            if k < flat.len() {
                assert(out[k] == flat[k]);
                assert(body_binds(flat, b));
                if body_binds(out, b) && !generated_in(c, c2, b) {
                    assert(body[0].bindings.contains(b));
                    let p0 = choose|p0: int|
                        0 <= p0 < body[0].bindings.len() && body[0].bindings[p0] == b;
                    assert(body_binds(body, b));
                }
                if generated_in(c, c1, b) {
                    let d = choose|d: nat| c <= d < c1 && b == gen_name(d);
                    assert(generated_in(c, c2, b));
                }
            } else {
                assert(out[k] == rest[k - flat.len()]);
                assert(body_binds(rest, b));
                if body_binds(body.drop_first(), b) {
                    let rest_body = body.drop_first();
                    let (k1, p1) = choose|k1: int, p1: int|
                        0 <= k1 < rest_body.len() && 0 <= p1 < rest_body[k1].bindings.len()
                            && rest_body[k1].bindings[p1] == b;
                    assert(body[k1 + 1].bindings[p1] == b);
                    assert(body_binds(body, b));
                } else {
                    let d = choose|d: nat| c1 <= d < c2 && b == gen_name(d);
                    assert(generated_in(c, c2, b));
                }
            }
        }
    }
}

/// Every name a flattened body binds is either a name the original body
/// already bound — a source name — or a generated local name: together with
/// [`lemma_gen_name_injective`] and [`lemma_gen_name_reserved`], the fresh
/// names of one flatten invocation are pairwise distinct and distinct from
/// every name of the source design.
pub proof fn lemma_flatten_output_names(s: SchematicV, lib: Seq<SchematicV>, f: SchematicV)
    requires
        lib_bound(lib),
        spec_flatten(s, lib) == Ok::<SchematicV, FlatErrV>(f),
    ensures
        forall|b: Seq<char>|
            #[trigger] body_binds(f.body, b) ==> body_binds(s.body, b) || (exists|d: nat|
                b == gen_name(d)),
{
    let (flat, c2) = spec_expand_body(s.body, s.name, lib, Seq::empty(), 0)->Ok_0;
    lemma_expand_body_names(s.body, s.name, lib, Seq::empty(), 0, flat, c2);
    assert forall|b: Seq<char>| #[trigger] body_binds(f.body, b) implies body_binds(s.body, b)
        || (exists|d: nat| b == gen_name(d)) by {
        if generated_in(0, c2, b) {
            let d = choose|d: nat| 0 <= d < c2 && b == gen_name(d);
        }
    }
}

/// How one binding of each of two parallel expansions may correspond: the
/// same position among the two instantiations' actual bindings, or generated
/// names with the same offset into the two expansions' fresh-name windows
/// `[g1, h1)` and `[g2, h2)`.
pub open spec fn corresponding_name(
    a1: Seq<Seq<char>>,
    a2: Seq<Seq<char>>,
    g1: nat,
    h1: nat,
    g2: nat,
    h2: nat,
    b1: Seq<char>,
    b2: Seq<char>,
) -> bool {
    ||| (exists|m: int| 0 <= m < a1.len() && b1 == #[trigger] a1[m] && b2 == a2[m])
    ||| (exists|n1: nat, n2: nat|
        #![trigger gen_name(n1), gen_name(n2)]
        n1 - g1 == n2 - g2 && g1 <= n1 < h1 && g2 <= n2 < h2 && b1 == gen_name(n1) && b2
            == gen_name(n2))
}

/// Rewriting one callee body through two substitutions that differ only in
/// the actual bindings and the fresh-name base yields bodies whose bindings
/// correspond pairwise.
proof fn lemma_rewrite_parametric(s: SchematicV, a1: Seq<Seq<char>>, a2: Seq<Seq<char>>, c1: nat, c2: nat)
    requires
        s.bindings_bound(),
        a1.len() == s.io_count(),
        a2.len() == s.io_count(),
    ensures
        rewrite_body(s.body, s.pins, a1, c1).len() == s.body.len(),
        rewrite_body(s.body, s.pins, a2, c2).len() == s.body.len(),
        forall|k: int|
            0 <= k < s.body.len() ==> (#[trigger] rewrite_body(s.body, s.pins, a1, c1)[k]).name
                == rewrite_body(s.body, s.pins, a2, c2)[k].name && rewrite_body(
                s.body,
                s.pins,
                a1,
                c1,
            )[k].bindings.len() == rewrite_body(s.body, s.pins, a2, c2)[k].bindings.len(),
        forall|k: int, p: int|
            0 <= k < s.body.len() && 0 <= p < rewrite_body(s.body, s.pins, a1, c1)[k].bindings.len()
                ==> corresponding_name(
                a1,
                a2,
                c1,
                c1 + s.locals_count(),
                c2,
                c2 + s.locals_count(),
                #[trigger] rewrite_body(s.body, s.pins, a1, c1)[k].bindings[p],
                rewrite_body(s.body, s.pins, a2, c2)[k].bindings[p],
            ),
{
    let rw1 = rewrite_body(s.body, s.pins, a1, c1);
    let rw2 = rewrite_body(s.body, s.pins, a2, c2);
    assert forall|k: int, p: int|
        0 <= k < s.body.len() && 0 <= p < rw1[k].bindings.len() implies corresponding_name(
        a1,
        a2,
        c1,
        c1 + s.locals_count(),
        c2,
        c2 + s.locals_count(),
        rw1[k].bindings[p],
        rw2[k].bindings[p],
    ) by {
        let b0 = s.body[k].bindings[p];
        assert(rw1[k] == rewrite_instr(s.body[k], s.pins, a1, c1));
        assert(rw2[k] == rewrite_instr(s.body[k], s.pins, a2, c2));
        assert(rw1[k].bindings[p] == subst_name(s.pins, a1, c1, b0));
        assert(rw2[k].bindings[p] == subst_name(s.pins, a2, c2, b0));
        assert(pin_index(s.pins, b0) is Some);
        lemma_pin_index_range(s.pins, b0);
        let j = pin_index(s.pins, b0)->Some_0;
        lemma_role_counts_step(s.pins, j);
        lemma_role_counts_mono(s.pins, j + 1, s.pins.len() as int);
        lemma_role_counts_total(s);
        lemma_roles_partition(s.pins, j);
        if s.pins[j].role == Role::Local {
            let d = locals_before(s.pins, j);
            assert(d < s.locals_count());
            assert(rw1[k].bindings[p] == gen_name(c1 + d));
            assert(rw2[k].bindings[p] == gen_name(c2 + d));
        } else {
            let m = j - locals_before(s.pins, j);
            assert(m == nonlocals_before(s.pins, j));
            assert(m < s.io_count());
            assert(rw1[k].bindings[p] == a1[m]);
            assert(rw2[k].bindings[p] == a2[m]);
        }
    }
}

/// Helper for [`lemma_expansions_structurally_identical`], instruction form:
/// expanding the same schematic twice, with possibly different actual
/// bindings and fresh-name bases, yields bodies of the same shape whose
/// bindings correspond position for position.
proof fn lemma_expand_instr_parametric(
    i1: InstrV,
    i2: InstrV,
    caller1: Seq<char>,
    caller2: Seq<char>,
    lib: Seq<SchematicV>,
    stack: Seq<Seq<char>>,
    c1: nat,
    c2: nat,
    out1: Seq<InstrV>,
    e1: nat,
    out2: Seq<InstrV>,
    e2: nat,
)
    requires
        stack_ok(lib, stack),
        lib_bound(lib),
        i1.name == i2.name,
        i1.bindings.len() == i2.bindings.len(),
        spec_expand_instr(i1, caller1, lib, stack, c1) == Ok::<(Seq<InstrV>, nat), FlatErrV>(
            (out1, e1),
        ),
        spec_expand_instr(i2, caller2, lib, stack, c2) == Ok::<(Seq<InstrV>, nat), FlatErrV>(
            (out2, e2),
        ),
    ensures
        c1 <= e1,
        c2 <= e2,
        e1 - c1 == e2 - c2,
        out1.len() == out2.len(),
        forall|k: int|
            0 <= k < out1.len() ==> (#[trigger] out1[k]).name == out2[k].name
                && out1[k].bindings.len() == out2[k].bindings.len(),
        forall|k: int, p: int|
            0 <= k < out1.len() && 0 <= p < out1[k].bindings.len() ==> corresponding_name(
                i1.bindings,
                i2.bindings,
                c1,
                e1,
                c2,
                e2,
                #[trigger] out1[k].bindings[p],
                out2[k].bindings[p],
            ),
    decreases lib.len() + 1 - stack.len(), 0nat, 0nat,
{
    if i1.name == nand_name() {
        assert(out1 == seq![i1] && e1 == c1);
        assert(out2 == seq![i2] && e2 == c2);
        assert forall|k: int, p: int|
            0 <= k < out1.len() && 0 <= p < out1[k].bindings.len() implies corresponding_name(
            i1.bindings,
            i2.bindings,
            c1,
            e1,
            c2,
            e2,
            out1[k].bindings[p],
            out2[k].bindings[p],
        ) by {
            assert(out1[k] == i1 && out2[k] == i2);
            assert(out1[k].bindings[p] == i1.bindings[p]);
        }
    } else {
        let s = find_schematic(lib, i1.name)->Some_0;
        lemma_find_in_lib(lib, i1.name);
        let x = choose|x: int| 0 <= x < lib.len() && lib[x] == s;
        assert(s.bindings_bound());
        let ll = s.locals_count();
        let rw1 = rewrite_body(s.body, s.pins, i1.bindings, c1);
        let rw2 = rewrite_body(s.body, s.pins, i2.bindings, c2);
        lemma_stack_ok_push(lib, stack, i1.name);
        lemma_stack_bound(lib, stack.push(i1.name));
        lemma_rewrite_parametric(s, i1.bindings, i2.bindings, c1, c2);
        lemma_expand_body_parametric(
            rw1,
            rw2,
            i1.name,
            i2.name,
            lib,
            stack.push(i1.name),
            (c1 + ll) as nat,
            (c2 + ll) as nat,
            i1.bindings,
            i2.bindings,
            c1,
            c2,
            out1,
            e1,
            out2,
            e2,
        );
    }
}

/// Helper for [`lemma_expansions_structurally_identical`], body form.  The
/// fresh names handed out before this body began stand in `[g1, c1)` and
/// `[g2, c2)`; the two windows have the same width and grow in step.
proof fn lemma_expand_body_parametric(
    body1: Seq<InstrV>,
    body2: Seq<InstrV>,
    caller1: Seq<char>,
    caller2: Seq<char>,
    lib: Seq<SchematicV>,
    stack: Seq<Seq<char>>,
    c1: nat,
    c2: nat,
    a1: Seq<Seq<char>>,
    a2: Seq<Seq<char>>,
    g1: nat,
    g2: nat,
    out1: Seq<InstrV>,
    e1: nat,
    out2: Seq<InstrV>,
    e2: nat,
)
    requires
        stack_ok(lib, stack),
        lib_bound(lib),
        body1.len() == body2.len(),
        g1 <= c1,
        g2 <= c2,
        c1 - g1 == c2 - g2,
        a1.len() == a2.len(),
        forall|k: int|
            0 <= k < body1.len() ==> (#[trigger] body1[k]).name == body2[k].name
                && body1[k].bindings.len() == body2[k].bindings.len(),
        forall|k: int, p: int|
            0 <= k < body1.len() && 0 <= p < body1[k].bindings.len() ==> corresponding_name(
                a1,
                a2,
                g1,
                c1,
                g2,
                c2,
                #[trigger] body1[k].bindings[p],
                body2[k].bindings[p],
            ),
        spec_expand_body(body1, caller1, lib, stack, c1) == Ok::<(Seq<InstrV>, nat), FlatErrV>(
            (out1, e1),
        ),
        spec_expand_body(body2, caller2, lib, stack, c2) == Ok::<(Seq<InstrV>, nat), FlatErrV>(
            (out2, e2),
        ),
    ensures
        c1 <= e1,
        c2 <= e2,
        e1 - c1 == e2 - c2,
        out1.len() == out2.len(),
        forall|k: int|
            0 <= k < out1.len() ==> (#[trigger] out1[k]).name == out2[k].name
                && out1[k].bindings.len() == out2[k].bindings.len(),
        forall|k: int, p: int|
            0 <= k < out1.len() && 0 <= p < out1[k].bindings.len() ==> corresponding_name(
                a1,
                a2,
                g1,
                e1,
                g2,
                e2,
                #[trigger] out1[k].bindings[p],
                out2[k].bindings[p],
            ),
    decreases lib.len() + 1 - stack.len(), 1nat, body1.len(),
{
    if body1.len() == 0 {
    } else {
        let (f1, m1) = spec_expand_instr(body1[0], caller1, lib, stack, c1)->Ok_0;
        let (r1, _x1) = spec_expand_body(body1.drop_first(), caller1, lib, stack, m1)->Ok_0;
        let (f2, m2) = spec_expand_instr(body2[0], caller2, lib, stack, c2)->Ok_0;
        let (r2, _x2) = spec_expand_body(body2.drop_first(), caller2, lib, stack, m2)->Ok_0;
        lemma_expand_instr_parametric(
            body1[0],
            body2[0],
            caller1,
            caller2,
            lib,
            stack,
            c1,
            c2,
            f1,
            m1,
            f2,
            m2,
        );
        // Lift the head's correspondences from the instruction's own actual
        // bindings to `a1`/`a2`, widening the window to `[g, m)`.
        assert forall|k: int, p: int|
            0 <= k < f1.len() && 0 <= p < f1[k].bindings.len() implies corresponding_name(
            a1,
            a2,
            g1,
            m1,
            g2,
            m2,
            f1[k].bindings[p],
            f2[k].bindings[p],
        ) by {
            let b1 = f1[k].bindings[p];
            let b2 = f2[k].bindings[p];
            assert(corresponding_name(body1[0].bindings, body2[0].bindings, c1, m1, c2, m2, b1, b2));
            if exists|m: int|
                0 <= m < body1[0].bindings.len() && b1 == #[trigger] body1[0].bindings[m] && b2
                    == body2[0].bindings[m] {
                let m = choose|m: int|
                    0 <= m < body1[0].bindings.len() && b1 == #[trigger] body1[0].bindings[m] && b2
                        == body2[0].bindings[m];
                assert(corresponding_name(
                    a1,
                    a2,
                    g1,
                    c1,
                    g2,
                    c2,
                    body1[0].bindings[m],
                    body2[0].bindings[m],
                ));
                if exists|n1: nat, n2: nat|
                    #![trigger gen_name(n1), gen_name(n2)]
                    n1 - g1 == n2 - g2 && g1 <= n1 < c1 && g2 <= n2 < c2 && b1 == gen_name(n1)
                        && b2 == gen_name(n2) {
                    let (n1, n2) = choose|n1: nat, n2: nat|
                        #![trigger gen_name(n1), gen_name(n2)]
                        n1 - g1 == n2 - g2 && g1 <= n1 < c1 && g2 <= n2 < c2 && b1 == gen_name(n1)
                            && b2 == gen_name(n2);
                    assert(g1 <= n1 < m1 && g2 <= n2 < m2);
                }
            } else {
                let (n1, n2) = choose|n1: nat, n2: nat|
                    #![trigger gen_name(n1), gen_name(n2)]
                    n1 - c1 == n2 - c2 && c1 <= n1 < m1 && c2 <= n2 < m2 && b1 == gen_name(n1)
                        && b2 == gen_name(n2);
                assert(n1 - g1 == n2 - g2);
                assert(g1 <= n1 < m1 && g2 <= n2 < m2);
            }
        }
        let rest_a = body1.drop_first();
        let rest_b = body2.drop_first();
        assert(forall|k: int|
            0 <= k < rest_a.len() ==> (#[trigger] rest_a[k]).name == rest_b[k].name
                && rest_a[k].bindings.len() == rest_b[k].bindings.len()) by {
            assert(forall|k: int| 0 <= k < rest_a.len() ==> #[trigger] rest_a[k] == body1[k + 1]);
            assert(forall|k: int| 0 <= k < rest_b.len() ==> #[trigger] rest_b[k] == body2[k + 1]);
        }
        assert forall|k: int, p: int|
            0 <= k < rest_a.len() && 0 <= p < rest_a[k].bindings.len() implies corresponding_name(
            a1,
            a2,
            g1,
            m1,
            g2,
            m2,
            #[trigger] rest_a[k].bindings[p],
            rest_b[k].bindings[p],
        ) by {
            assert(rest_a[k] == body1[k + 1]);
            assert(rest_b[k] == body2[k + 1]);
            let b1 = body1[k + 1].bindings[p];
            let b2 = body2[k + 1].bindings[p];
            assert(corresponding_name(a1, a2, g1, c1, g2, c2, b1, b2));
            if exists|n1: nat, n2: nat|
                #![trigger gen_name(n1), gen_name(n2)]
                n1 - g1 == n2 - g2 && g1 <= n1 < c1 && g2 <= n2 < c2 && b1 == gen_name(n1) && b2
                    == gen_name(n2) {
                let (n1, n2) = choose|n1: nat, n2: nat|
                    #![trigger gen_name(n1), gen_name(n2)]
                    n1 - g1 == n2 - g2 && g1 <= n1 < c1 && g2 <= n2 < c2 && b1 == gen_name(n1)
                        && b2 == gen_name(n2);
                assert(g1 <= n1 < m1 && g2 <= n2 < m2);
            }
        }
        lemma_expand_body_parametric(
            body1.drop_first(),
            body2.drop_first(),
            caller1,
            caller2,
            lib,
            stack,
            m1,
            m2,
            a1,
            a2,
            g1,
            g2,
            r1,
            _x1,
            r2,
            _x2,
        );
        assert(out1 == f1 + r1 && e1 == _x1);
        assert(out2 == f2 + r2 && e2 == _x2);
        assert forall|k: int, p: int|
            0 <= k < out1.len() && 0 <= p < out1[k].bindings.len() implies corresponding_name(
            a1,
            a2,
            g1,
            e1,
            g2,
            e2,
            out1[k].bindings[p],
            out2[k].bindings[p],
        ) by {
            if k < f1.len() {
                assert(out1[k] == f1[k] && out2[k] == f2[k]);
                let b1 = f1[k].bindings[p];
                let b2 = f2[k].bindings[p];
                assert(corresponding_name(a1, a2, g1, m1, g2, m2, b1, b2));
                if exists|n1: nat, n2: nat|
                    #![trigger gen_name(n1), gen_name(n2)]
                    n1 - g1 == n2 - g2 && g1 <= n1 < m1 && g2 <= n2 < m2 && b1 == gen_name(n1)
                        && b2 == gen_name(n2) {
                    let (n1, n2) = choose|n1: nat, n2: nat|
                        #![trigger gen_name(n1), gen_name(n2)]
                        n1 - g1 == n2 - g2 && g1 <= n1 < m1 && g2 <= n2 < m2 && b1 == gen_name(n1)
                            && b2 == gen_name(n2);
                    assert(g1 <= n1 < e1 && g2 <= n2 < e2);
                }
            } else {
                assert(out1[k] == r1[k - f1.len()] && out2[k] == r2[k - f2.len()]);
            }
        }
        assert(forall|k: int|
            0 <= k < out1.len() ==> (#[trigger] out1[k]).name == out2[k].name
                && out1[k].bindings.len() == out2[k].bindings.len()) by {
            assert(forall|k: int|
                0 <= k < out1.len() ==> out1[k] == (if k < f1.len() {
                    f1[k]
                } else {
                    r1[k - f1.len()]
                }) && out2[k] == (if k < f2.len() {
                    f2[k]
                } else {
                    r2[k - f2.len()]
                }));
        }
    }
}

/// Instantiating the same sub-schematic twice yields two structurally
/// identical expansions: the same number of primitive instructions, and at
/// every position either the same actual binding of the two call sites or
/// two generated names at the same offset of the two (disjoint) fresh-name
/// windows.  In particular — with [`lemma_gen_name_injective`] — the two
/// expansions share no generated local wire.
pub proof fn lemma_expansions_structurally_identical(
    i1: InstrV,
    i2: InstrV,
    caller: Seq<char>,
    lib: Seq<SchematicV>,
    stack: Seq<Seq<char>>,
    c1: nat,
    out1: Seq<InstrV>,
    e1: nat,
    out2: Seq<InstrV>,
    e2: nat,
)
    requires
        stack_ok(lib, stack),
        lib_bound(lib),
        i1.name == i2.name,
        i1.bindings.len() == i2.bindings.len(),
        spec_expand_instr(i1, caller, lib, stack, c1) == Ok::<(Seq<InstrV>, nat), FlatErrV>(
            (out1, e1),
        ),
        spec_expand_instr(i2, caller, lib, stack, e1) == Ok::<(Seq<InstrV>, nat), FlatErrV>(
            (out2, e2),
        ),
    ensures
        out1.len() == out2.len(),
        forall|k: int|
            0 <= k < out1.len() ==> (#[trigger] out1[k]).name == out2[k].name
                && out1[k].bindings.len() == out2[k].bindings.len(),
        forall|k: int, p: int|
            0 <= k < out1.len() && 0 <= p < out1[k].bindings.len() ==> corresponding_name(
                i1.bindings,
                i2.bindings,
                c1,
                e1,
                e1,
                e2,
                #[trigger] out1[k].bindings[p],
                out2[k].bindings[p],
            ),
        forall|b: Seq<char>|
            #[trigger] body_binds(out1, b) && body_binds(out2, b) ==> i1.bindings.contains(b)
                || i2.bindings.contains(b),
{
    lemma_expand_instr_parametric(
        i1,
        i2,
        caller,
        caller,
        lib,
        stack,
        c1,
        e1,
        out1,
        e1,
        out2,
        e2,
    );
    lemma_expand_instr_names(i1, caller, lib, stack, c1, out1, e1);
    lemma_expand_instr_names(i2, caller, lib, stack, e1, out2, e2);
    assert forall|b: Seq<char>|
        #[trigger] body_binds(out1, b) && body_binds(out2, b) implies i1.bindings.contains(b)
        || i2.bindings.contains(b) by {
        if !i1.bindings.contains(b) && !i2.bindings.contains(b) {
            assert(generated_in(c1, e1, b));
            assert(generated_in(e1, e2, b));
            let d1 = choose|d1: nat| c1 <= d1 < e1 && b == gen_name(d1);
            let d2 = choose|d2: nat| e1 <= d2 < e2 && b == gen_name(d2);
            lemma_gen_name_injective(d1, d2);
        }
    }
}

/// True iff `name` spells the primitive gate's name.
fn is_nand(name: &String) -> (r: bool)
    ensures
        r == (name@ == nand_name()),
{
    let nand: String = String::from_str("nand");
    name.eq(&nand)
}

/// The first schematic of `library` named `name`, if any.
fn find_in<'a>(library: &'a Vec<Schematic>, name: &String) -> (r: Option<&'a Schematic>)
    ensures
        match r {
            Some(s) => find_schematic(library.deep_view(), name@) == Some(s@),
            None => find_schematic(library.deep_view(), name@) is None,
        },
{
    let mut i: usize = 0;
    proof {
        assert(library.deep_view().skip(0) =~= library.deep_view());
    }
    while i < library.len()
        invariant
            i <= library.len(),
            find_schematic(library.deep_view(), name@) == find_schematic(
                library.deep_view().skip(i as int),
                name@,
            ),
        decreases library.len() - i,
    {
        if library[i].name.eq(name) {
            proof {
                assert(library.deep_view().skip(i as int)[0] == library.deep_view()[i as int]);
            }
            return Some(&library[i]);
        }
        proof {
            assert(library.deep_view().skip(i as int).drop_first() =~= library.deep_view().skip(
                i + 1,
            ));
        }
        i = i + 1;
    }
    None
}

/// Counts a schematic's interface pins and local pins in one pass.
fn count_roles(s: &Schematic) -> (r: (usize, usize))
    ensures
        r.0 == s@.io_count(),
        r.1 == s@.locals_count(),
{
    let ghost pinsv = s@.pins;
    let mut io: usize = 0;
    let mut loc: usize = 0;
    let mut j: usize = 0;
    proof {
        lemma_role_counts_zero(pinsv);
    }
    while j < s.pins.len()
        invariant
            j <= s.pins.len(),
            pinsv == s@.pins,
            io == nonlocals_before(pinsv, j as int),
            loc == locals_before(pinsv, j as int),
            io + loc == j,
        decreases s.pins.len() - j,
    {
        proof {
            lemma_role_counts_step(pinsv, j as int);
            assert(pinsv[j as int] == s.pins[j as int]@);
        }
        match s.pins[j].role {
            Role::Local => {
                loc = loc + 1;
            },
            _ => {
                io = io + 1;
            },
        }
        j = j + 1;
    }
    proof {
        lemma_role_counts_total(s@);
    }
    (io, loc)
}

/// The concrete wire name for each formal pin of `callee`, in pin order:
/// input and output pins take the caller's actual bindings positionally,
/// local pins take freshly generated names.
fn make_targets(callee: &Schematic, actuals: &Vec<String>, ng: &mut NameGenerator) -> (r: Vec<
    String,
>)
    requires
        old(ng).counter + callee@.locals_count() <= u64::MAX,
        actuals.deep_view().len() == callee@.io_count(),
    ensures
        final(ng).counter == old(ng).counter + callee@.locals_count(),
        r.deep_view().len() == callee@.pins.len(),
        forall|j: int|
            0 <= j < callee@.pins.len() ==> r.deep_view()[j] == pin_target(
                callee@.pins,
                actuals.deep_view(),
                old(ng).counter as nat,
                j,
            ),
{
    let ghost pinsv = callee@.pins;
    let ghost actsv = actuals.deep_view();
    let ghost c0 = ng.counter as nat;
    let mut r: Vec<String> = Vec::new();
    let mut lb: usize = 0;
    let mut j: usize = 0;
    proof {
        lemma_role_counts_zero(pinsv);
        lemma_role_counts_total(callee@);
    }
    while j < callee.pins.len()
        invariant
            j <= callee.pins.len(),
            pinsv == callee@.pins,
            actsv == actuals.deep_view(),
            actsv.len() == callee@.io_count(),
            c0 + callee@.locals_count() <= u64::MAX,
            lb == locals_before(pinsv, j as int),
            ng.counter as nat == c0 + locals_before(pinsv, j as int),
            r.deep_view().len() == j,
            forall|jj: int| 0 <= jj < j ==> r.deep_view()[jj] == pin_target(pinsv, actsv, c0, jj),
        decreases callee.pins.len() - j,
    {
        let ghost prev = r.deep_view();
        proof {
            lemma_role_counts_step(pinsv, j as int);
            lemma_role_counts_mono(pinsv, j + 1, pinsv.len() as int);
            lemma_role_counts_total(callee@);
            lemma_roles_partition(pinsv, j as int);
            assert(pinsv[j as int] == callee.pins[j as int]@);
        }
        match callee.pins[j].role {
            Role::Local => {
                let n = ng.get_next_name();
                r.push(n);
            },
            _ => {
                let idx = j - lb;
                r.push(actuals[idx].clone());
            },
        }
        proof {
            assert(r.deep_view() =~= prev.push(pin_target(pinsv, actsv, c0, j as int)));
        }
        match callee.pins[j].role {
            Role::Local => {
                lb = lb + 1;
            },
            _ => {
            },
        }
        j = j + 1;
    }
    proof {
        lemma_role_counts_total(callee@);
    }
    r
}

/// Rewrites one bound name through the substitution `targets` describes: the
/// target of the first pin of that name, or the name itself if no pin
/// carries it.
fn subst_binding(pins: &Vec<Pin>, targets: &Vec<String>, b: &String) -> (r: String)
    requires
        targets.deep_view().len() == pins.deep_view().len(),
    ensures
        r@ == (match pin_index(pins.deep_view(), b@) {
            Some(j) => targets.deep_view()[j],
            None => b@,
        }),
{
    let ghost pinsv = pins.deep_view();
    let mut j: usize = 0;
    while j < pins.len()
        invariant
            j <= pins.len(),
            pinsv == pins.deep_view(),
            targets.deep_view().len() == pinsv.len(),
            forall|jj: int| 0 <= jj < j ==> pinsv[jj].name != b@,
        decreases pins.len() - j,
    {
        if pins[j].name.eq(b) {
            proof {
                assert(pinsv[j as int].name == b@);
                lemma_pin_index_found(pinsv, b@, j as int);
            }
            return targets[j].clone();
        }
        proof {
            assert(pinsv[j as int].name != b@);
        }
        j = j + 1;
    }
    proof {
        lemma_pin_index_none(pinsv, b@);
    }
    b.clone()
}

/// Rewrites one callee body instruction through the substitution.
fn rewrite_instruction(
    instr: &Instruction,
    pins: &Vec<Pin>,
    targets: &Vec<String>,
    actuals: Ghost<Seq<Seq<char>>>,
    base: Ghost<nat>,
) -> (r: Instruction)
    requires
        targets.deep_view().len() == pins.deep_view().len(),
        forall|j: int|
            0 <= j < pins.deep_view().len() ==> targets.deep_view()[j] == pin_target(
                pins.deep_view(),
                actuals@,
                base@,
                j,
            ),
    ensures
        r@ == rewrite_instr(instr@, pins.deep_view(), actuals@, base@),
{
    let ghost pinsv = pins.deep_view();
    let ghost bsv = instr@.bindings;
    let mut bindings: Vec<String> = Vec::new();
    let mut m: usize = 0;
    while m < instr.pin_bindings.len()
        invariant
            m <= instr.pin_bindings.len(),
            pinsv == pins.deep_view(),
            bsv == instr@.bindings,
            targets.deep_view().len() == pinsv.len(),
            forall|j: int|
                0 <= j < pinsv.len() ==> targets.deep_view()[j] == pin_target(
                    pinsv,
                    actuals@,
                    base@,
                    j,
                ),
            bindings.deep_view().len() == m,
            forall|mm: int|
                0 <= mm < m ==> bindings.deep_view()[mm] == subst_name(
                    pinsv,
                    actuals@,
                    base@,
                    bsv[mm],
                ),
        decreases instr.pin_bindings.len() - m,
    {
        let nb = subst_binding(pins, targets, &instr.pin_bindings[m]);
        let ghost prev = bindings.deep_view();
        proof {
            lemma_pin_index_range(pinsv, bsv[m as int]);
            assert(nb@ == subst_name(pinsv, actuals@, base@, bsv[m as int]));
        }
        bindings.push(nb);
        proof {
            assert(bindings.deep_view() =~= prev.push(subst_name(
                pinsv,
                actuals@,
                base@,
                bsv[m as int],
            )));
        }
        m = m + 1;
    }
    let r = Instruction { schematic_name: instr.schematic_name.clone(), pin_bindings: bindings };
    proof {
        assert(r@.bindings =~= instr@.bindings.map_values(
            |b: Seq<char>| subst_name(pinsv, actuals@, base@, b),
        ));
    }
    r
}

/// Prepending to an already prepended outcome is prepending the
/// concatenation.
proof fn lemma_expand_state_assoc(
    a: Seq<InstrV>,
    b: Seq<InstrV>,
    r: Result<(Seq<InstrV>, nat), FlatErrV>,
)
    ensures
        expand_state(a, expand_state(b, r)) == expand_state(a + b, r),
{
    if let Ok((flat, c)) = r {
        assert(a + (b + flat) =~= (a + b) + flat);
    }
}

/// Prepending nothing changes nothing.
proof fn lemma_expand_state_empty(r: Result<(Seq<InstrV>, nat), FlatErrV>)
    ensures
        expand_state(Seq::empty(), r) == r,
{
    if let Ok((flat, c)) = r {
        assert(Seq::empty() + flat =~= flat);
    }
}

/// Expands one instruction into primitive instructions, exactly as
/// [`spec_expand_instr`] describes.  `stack` holds the names of the
/// expansions in progress and comes back unchanged.
fn expand_instruction(
    instr: &Instruction,
    caller: &String,
    library: &Vec<Schematic>,
    ng: &mut NameGenerator,
    stack: &mut Vec<String>,
) -> (r: Result<Vec<Instruction>, FlattenError>)
    requires
        stack_ok(library.deep_view(), old(stack).deep_view()),
    ensures
        final(stack).deep_view() == old(stack).deep_view(),
        old(ng).counter <= final(ng).counter,
        match r {
            Ok(v) => spec_expand_instr(
                instr@,
                caller@,
                library.deep_view(),
                old(stack).deep_view(),
                old(ng).counter as nat,
            ) == Ok::<(Seq<InstrV>, nat), FlatErrV>((v.deep_view(), final(ng).counter as nat)),
            Err(e) => spec_expand_instr(
                instr@,
                caller@,
                library.deep_view(),
                old(stack).deep_view(),
                old(ng).counter as nat,
            ) == Err::<(Seq<InstrV>, nat), FlatErrV>(e@),
        },
    decreases library.deep_view().len() + 1 - stack.deep_view().len(), 0nat,
{
    let ghost libv = library.deep_view();
    let ghost stk0 = stack.deep_view();
    let ghost c0 = ng.counter as nat;
    if is_nand(&instr.schematic_name) {
        if instr.pin_bindings.len() == 3 {
            let v = vec![instr.clone()];
            proof {
                assert(v.deep_view() =~= seq![instr@]);
            }
            Ok(v)
        } else {
            let e = FlattenError::ArityMismatch {
                schematic: String::from_str("nand"),
                expected: 3,
                found: instr.pin_bindings.len(),
            };
            proof {
                assert(e@ =~= FlatErrV::ArityMismatch {
                    schematic: nand_name(),
                    expected: 3,
                    found: instr@.bindings.len(),
                });
            }
            Err(e)
        }
    } else {
        match find_in(library, &instr.schematic_name) {
            None => {
                Err(
                    FlattenError::UndefinedSchematic {
                        name: instr.schematic_name.clone(),
                        referenced_in: caller.clone(),
                    },
                )
            },
            Some(callee) => {
                if crate::schematic::contains_name(stack, &instr.schematic_name) {
                    Err(FlattenError::Cycle { name: instr.schematic_name.clone() })
                } else {
                    let counts = count_roles(callee);
                    let io = counts.0;
                    let loc = counts.1;
                    if instr.pin_bindings.len() != io {
                        Err(
                            FlattenError::ArityMismatch {
                                schematic: instr.schematic_name.clone(),
                                expected: io,
                                found: instr.pin_bindings.len(),
                            },
                        )
                    } else if (loc as u64) > u64::MAX - ng.counter {
                        Err(FlattenError::TooManyLocals)
                    } else {
                        let ghost base = ng.counter as nat;
                        let targets = make_targets(callee, &instr.pin_bindings, ng);
                        let ghost rw = rewrite_body(callee@.body, callee@.pins, instr@.bindings, base);
                        let mut rewritten: Vec<Instruction> = Vec::new();
                        let mut k: usize = 0;
                        proof {
                            assert(rewritten.deep_view() =~= rw.take(0));
                        }
                        while k < callee.body.len()
                            invariant
                                k <= callee.body.len(),
                                rw == rewrite_body(
                                    callee@.body,
                                    callee@.pins,
                                    instr@.bindings,
                                    base,
                                ),
                                targets.deep_view().len() == callee@.pins.len(),
                                forall|j: int|
                                    0 <= j < callee@.pins.len() ==> targets.deep_view()[j]
                                        == pin_target(
                                        callee@.pins,
                                        instr@.bindings,
                                        base,
                                        j,
                                    ),
                                rewritten.deep_view() == rw.take(k as int),
                            decreases callee.body.len() - k,
                        {
                            let ri = rewrite_instruction(
                                &callee.body[k],
                                &callee.pins,
                                &targets,
                                Ghost(instr@.bindings),
                                Ghost(base),
                            );
                            let ghost prevr = rewritten.deep_view();
                            rewritten.push(ri);
                            proof {
                                let ghost kk = k as int;
                                assert(rw[kk] == rewrite_instr(
                                    callee@.body[kk],
                                    callee@.pins,
                                    instr@.bindings,
                                    base,
                                ));
                                assert(rewritten.deep_view() =~= prevr.push(rw[kk]));
                                assert(rw.take(kk + 1) =~= rw.take(kk).push(rw[kk]));
                            }
                            k = k + 1;
                        }
                        proof {
                            assert(rw.take(callee@.body.len() as int) =~= rw);
                        }
                        stack.push(instr.schematic_name.clone());
                        proof {
                            assert(stack.deep_view() =~= stk0.push(instr@.name));
                            assert(forall|i2: int|
                                0 <= i2 < stk0.len() ==> stk0[i2] != instr@.name);
                            assert(stk0.push(instr@.name).no_duplicates());
                            assert forall|i2: int|
                                0 <= i2 < stk0.push(instr@.name).len() implies find_schematic(
                                libv,
                                #[trigger] stk0.push(instr@.name)[i2],
                            ) is Some by {
                                if i2 < stk0.len() {
                                    assert(stk0.push(instr@.name)[i2] == stk0[i2]);
                                }
                            }
                            assert(stack_ok(libv, stack.deep_view()));
                            lemma_stack_bound(libv, stack.deep_view());
                        }
                        let res = expand_instructions(
                            &rewritten,
                            &instr.schematic_name,
                            library,
                            ng,
                            stack,
                        );
                        let ghost before_pop = stack.deep_view();
                        let _popped = stack.pop();
                        proof {
                            assert(before_pop == stk0.push(instr@.name));
                            assert(before_pop.len() == stk0.len() + 1);
                            assert(stack.deep_view().len() == stk0.len());
                            assert forall|i2: int| 0 <= i2 < stk0.len() implies stack.deep_view()[
                                i2
                            ] == stk0[i2] by {
                                assert(stack.deep_view()[i2] == before_pop[i2]);
                                assert(before_pop[i2] == stk0.push(instr@.name)[i2]);
                                assert(stk0.push(instr@.name)[i2] == stk0[i2]);
                            }
                            assert(stack.deep_view() =~= stk0);
                            assert(spec_expand_instr(instr@, caller@, libv, stk0, c0)
                                == spec_expand_body(
                                rw,
                                instr@.name,
                                libv,
                                stk0.push(instr@.name),
                                base + callee@.locals_count(),
                            ));
                        }
                        res
                    }
                }
            },
        }
    }
}

/// Expands each instruction of `body` in order, threading the name generator
/// through and concatenating the primitive results, exactly as
/// [`spec_expand_body`] describes.
#[verifier::loop_isolation(false)]
fn expand_instructions(
    body: &Vec<Instruction>,
    caller: &String,
    library: &Vec<Schematic>,
    ng: &mut NameGenerator,
    stack: &mut Vec<String>,
) -> (r: Result<Vec<Instruction>, FlattenError>)
    requires
        stack_ok(library.deep_view(), old(stack).deep_view()),
    ensures
        final(stack).deep_view() == old(stack).deep_view(),
        old(ng).counter <= final(ng).counter,
        match r {
            Ok(v) => spec_expand_body(
                body.deep_view(),
                caller@,
                library.deep_view(),
                old(stack).deep_view(),
                old(ng).counter as nat,
            ) == Ok::<(Seq<InstrV>, nat), FlatErrV>((v.deep_view(), final(ng).counter as nat)),
            Err(e) => spec_expand_body(
                body.deep_view(),
                caller@,
                library.deep_view(),
                old(stack).deep_view(),
                old(ng).counter as nat,
            ) == Err::<(Seq<InstrV>, nat), FlatErrV>(e@),
        },
    decreases library.deep_view().len() + 1 - stack.deep_view().len(), 1nat,
{
    let ghost libv = library.deep_view();
    let ghost stk0 = stack.deep_view();
    let ghost c0 = ng.counter as nat;
    let ghost bv = body.deep_view();
    let mut out: Vec<Instruction> = Vec::new();
    let mut i: usize = 0;
    proof {
        assert(bv.skip(0) =~= bv);
        lemma_expand_state_empty(spec_expand_body(bv, caller@, libv, stk0, c0));
        assert(out.deep_view() =~= Seq::<InstrV>::empty());
        lemma_stack_bound(libv, stk0);
    }
    while i < body.len()
        invariant
            i <= body.len(),
            bv == body.deep_view(),
            libv == library.deep_view(),
            stack.deep_view() == stk0,
            stack_ok(libv, stk0),
            c0 <= ng.counter as nat,
            spec_expand_body(bv, caller@, libv, stk0, c0) == expand_state(
                out.deep_view(),
                spec_expand_body(bv.skip(i as int), caller@, libv, stk0, ng.counter as nat),
            ),
        decreases body.len() - i,
    {
        let ghost ci = ng.counter as nat;
        proof {
            lemma_stack_bound(libv, stk0);
        }
        let r1 = expand_instruction(&body[i], caller, library, ng, stack);
        proof {
            assert(bv.skip(i as int)[0] == bv[i as int]);
            assert(bv.skip(i as int).drop_first() =~= bv.skip(i + 1));
        }
        match r1 {
            Err(e) => {
                return Err(e);
            },
            Ok(mut v) => {
                let ghost vd = v.deep_view();
                proof {
                    assert(spec_expand_body(bv.skip(i as int), caller@, libv, stk0, ci)
                        == expand_state(
                        vd,
                        spec_expand_body(bv.skip(i + 1), caller@, libv, stk0, ng.counter as nat),
                    ));
                    lemma_expand_state_assoc(
                        out.deep_view(),
                        vd,
                        spec_expand_body(bv.skip(i + 1), caller@, libv, stk0, ng.counter as nat),
                    );
                }
                let ghost outprev = out.deep_view();
                out.append(&mut v);
                proof {
                    assert(out.deep_view() =~= outprev + vd);
                }
            },
        }
        i = i + 1;
    }
    proof {
        assert(bv.skip(bv.len() as int) =~= Seq::<InstrV>::empty());
        assert(out.deep_view() + Seq::<InstrV>::empty() =~= out.deep_view());
    }
    Ok(out)
}

impl Schematic {
    /// Produces an equivalent schematic whose body consists solely of
    /// primitive `nand` instructions, with the same name and pin interface.
    /// Every instantiation of a user-defined schematic is inlined, its formal
    /// inputs and outputs bound positionally to the caller's wires and its
    /// locals renamed to fresh generated names.  The schematic's own body is
    /// expanded in place: its own local wires keep their names, and a body
    /// that is already primitive comes back verbatim — only the locals of
    /// inlined sub-schematics are renamed.  An instruction referencing a
    /// name absent from `library`, a binding list whose length disagrees with
    /// the callee's interface, and an instantiation cycle each fail with the
    /// matching [`FlattenError`].
    pub fn flatten(&self, library: &Vec<Schematic>) -> (r: Result<Schematic, FlattenError>)
        ensures
            match r {
                Ok(f) => spec_flatten(self@, library.deep_view()) == Ok::<SchematicV, FlatErrV>(
                    f@,
                ),
                Err(e) => spec_flatten(self@, library.deep_view()) == Err::<SchematicV, FlatErrV>(
                    e@,
                ),
            },
    {
        let mut ng = NameGenerator::new();
        let mut stack: Vec<String> = Vec::new();
        proof {
            assert(stack.deep_view() =~= Seq::<Seq<char>>::empty());
        }
        let res = expand_instructions(&self.body, &self.name, library, &mut ng, &mut stack);
        match res {
            Err(e) => Err(e),
            Ok(flat) => {
                let pins = self.pins.clone();
                proof {
                    assert(pins.deep_view() =~= self.pins.deep_view());
                }
                Ok(Schematic { name: self.name.clone(), pins, body: flat })
            },
        }
    }
}

} // verus!
