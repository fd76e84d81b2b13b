//! The circuit data model: pins, instructions, schematics and designs.
//!
//! A [`Schematic`] is a named reusable circuit: an ordered pin list (inputs,
//! then outputs, then locals) and an ordered body of [`Instruction`]s, each of
//! which instantiates another schematic by name and binds actual wire names to
//! its formal pins positionally.  A [`Design`] is the ordered library of all
//! parsed schematics, looked up by name at elaboration time.

use vstd::prelude::*;

verus! {

/// The role of a pin within its schematic's interface.
#[derive(Clone, Copy, Debug, PartialEq, Eq, Structural)]
pub enum Role {
    Input,
    Output,
    Local,
}

/// A named wire attached to a schematic.
#[derive(Debug)]
pub struct Pin {
    pub name: String,
    pub role: Role,
}

/// Mathematical model of a [`Pin`]: its name as a character sequence.
#[verifier::ext_equal]
pub ghost struct PinV {
    pub name: Seq<char>,
    pub role: Role,
}

impl View for Pin {
    type V = PinV;

    open spec fn view(&self) -> PinV {
        PinV { name: self.name@, role: self.role }
    }
}

impl DeepView for Pin {
    type V = PinV;

    open spec fn deep_view(&self) -> PinV {
        self.view()
    }
}

impl Clone for Pin {
    fn clone(&self) -> (r: Self)
        ensures
            r@ == self@,
    {
        Pin { name: self.name.clone(), role: self.role }
    }
}

impl Pin {
    /// A pin with the given name and role.
    pub fn new(name: String, role: Role) -> (r: Self)
        ensures
            r@ == (PinV { name: name@, role }),
    {
        Self { name, role }
    }

    /// An input pin.
    pub fn new_input(name: String) -> (r: Self)
        ensures
            r@ == (PinV { name: name@, role: Role::Input }),
    {
        Pin::new(name, Role::Input)
    }

    /// An output pin.
    pub fn new_output(name: String) -> (r: Self)
        ensures
            r@ == (PinV { name: name@, role: Role::Output }),
    {
        Pin::new(name, Role::Output)
    }

    /// A local pin.
    pub fn new_local(name: String) -> (r: Self)
        ensures
            r@ == (PinV { name: name@, role: Role::Local }),
    {
        Pin::new(name, Role::Local)
    }
}

/// One statement in a schematic's body: the name of the schematic being
/// instantiated and the actual wire names bound to its formal pins, inputs
/// first, then outputs.
#[derive(Debug)]
pub struct Instruction {
    pub schematic_name: String,
    pub pin_bindings: Vec<String>,
}

/// Mathematical model of an [`Instruction`].
#[verifier::ext_equal]
pub ghost struct InstrV {
    pub name: Seq<char>,
    pub bindings: Seq<Seq<char>>,
}

impl View for Instruction {
    type V = InstrV;

    open spec fn view(&self) -> InstrV {
        InstrV { name: self.schematic_name@, bindings: self.pin_bindings.deep_view() }
    }
}

impl DeepView for Instruction {
    type V = InstrV;

    open spec fn deep_view(&self) -> InstrV {
        self.view()
    }
}

impl Clone for Instruction {
    fn clone(&self) -> (r: Self)
        ensures
            r@ == self@,
    {
        let pin_bindings = self.pin_bindings.clone();
        proof {
            assert(pin_bindings.deep_view() =~= self.pin_bindings.deep_view());
        }
        Instruction { schematic_name: self.schematic_name.clone(), pin_bindings }
    }
}

impl Instruction {
    /// Builds an instruction from the instantiated schematic's name and the
    /// actual input and output bindings, concatenated in that order.
    pub fn new(schematic_name: String, inputs: Vec<String>, outputs: Vec<String>) -> (r: Self)
        ensures
            r@.name == schematic_name@,
            r@.bindings == inputs.deep_view() + outputs.deep_view(),
    {
        let mut pin_bindings: Vec<String> = Vec::new();
        let mut i: usize = 0;
        while i < inputs.len()
            invariant
                i <= inputs.len(),
                pin_bindings.deep_view() == inputs.deep_view().take(i as int),
            decreases inputs.len() - i,
        {
            let ghost prev = pin_bindings.deep_view();
            pin_bindings.push(inputs[i].clone());
            proof {
                assert(pin_bindings@.len() == prev.len() + 1);
                assert(forall|k: int|
                    0 <= k < prev.len() ==> pin_bindings.deep_view()[k] == prev[k]);
                assert(pin_bindings.deep_view()[prev.len() as int] == inputs.deep_view()[i as int]);
                assert(pin_bindings.deep_view() =~= inputs.deep_view().take(i + 1));
            }
            i = i + 1;
        }
        proof {
            assert(pin_bindings.deep_view() =~= inputs.deep_view());
        }
        let mut j: usize = 0;
        while j < outputs.len()
            invariant
                j <= outputs.len(),
                pin_bindings.deep_view() == inputs.deep_view() + outputs.deep_view().take(j as int),
            decreases outputs.len() - j,
        {
            let ghost prev = pin_bindings.deep_view();
            pin_bindings.push(outputs[j].clone());
            proof {
                assert(pin_bindings@.len() == prev.len() + 1);
                assert(forall|k: int|
                    0 <= k < prev.len() ==> pin_bindings.deep_view()[k] == prev[k]);
                let ghost jj = j as int;
                assert(pin_bindings.deep_view()[prev.len() as int] == outputs.deep_view()[jj]);
                assert(pin_bindings.deep_view() =~= prev.push(outputs.deep_view()[jj]));
                assert(inputs.deep_view() + outputs.deep_view().take(jj + 1) =~= prev.push(
                    outputs.deep_view()[jj],
                ));
            }
            j = j + 1;
        }
        proof {
            assert(pin_bindings.deep_view() =~= inputs.deep_view() + outputs.deep_view());
        }
        Instruction { schematic_name, pin_bindings }
    }
}

/// A name list rendered for display: one leading space before each name.
pub open spec fn render_names(names: Seq<Seq<char>>) -> Seq<char>
    decreases names.len(),
{
    if names.len() == 0 {
        Seq::empty()
    } else {
        render_names(names.drop_last()) + " "@ + names.last()
    }
}

/// An instruction rendered for display: the instantiated schematic's name
/// followed by its bindings.
pub open spec fn render_instr(i: InstrV) -> Seq<char> {
    i.name + render_names(i.bindings)
}

/// A body rendered for display: each instruction on a line of its own.
pub open spec fn render_body(body: Seq<InstrV>) -> Seq<char>
    decreases body.len(),
{
    if body.len() == 0 {
        Seq::empty()
    } else {
        render_body(body.drop_last()) + render_instr(body.last()) + "\n"@
    }
}

/// The names of the pins with the given role, in pin order.
pub open spec fn role_names(pins: Seq<PinV>, role: Role) -> Seq<Seq<char>> {
    pins.filter(|p: PinV| p.role == role).map_values(|p: PinV| p.name)
}

/// Appends one name per element of `names`, each with a leading space.
fn append_names(s: &mut String, names: &Vec<String>)
    ensures
        final(s)@ == old(s)@ + render_names(names.deep_view()),
{
    let ghost namesv = names.deep_view();
    let mut i: usize = 0;
    proof {
        assert(namesv.take(0) =~= Seq::<Seq<char>>::empty());
        assert(old(s)@ + render_names(namesv.take(0)) =~= old(s)@);
    }
    while i < names.len()
        invariant
            i <= names.len(),
            namesv == names.deep_view(),
            s@ == old(s)@ + render_names(namesv.take(i as int)),
        decreases names.len() - i,
    {
        s.append(" ");
        s.append(names[i].as_str());
        proof {
            let ghost ii = i as int;
            assert(namesv.take(ii + 1).drop_last() =~= namesv.take(ii));
            assert(namesv.take(ii + 1).last() == namesv[ii]);
            assert(s@ =~= old(s)@ + render_names(namesv.take(ii + 1)));
        }
        i = i + 1;
    }
    proof {
        assert(namesv.take(namesv.len() as int) =~= namesv);
    }
}

/// The names of the pins of `pins` that carry the given role, in order.
fn names_with_role(pins: &Vec<Pin>, role: Role) -> (r: Vec<String>)
    ensures
        r.deep_view() == role_names(pins.deep_view(), role),
{
    let ghost pinsv = pins.deep_view();
    let mut r: Vec<String> = Vec::new();
    let mut i: usize = 0;
    proof {
        reveal(Seq::filter);
        assert(pinsv.take(0) =~= Seq::<PinV>::empty());
        assert(r.deep_view() =~= role_names(pinsv.take(0), role));
    }
    while i < pins.len()
        invariant
            i <= pins.len(),
            pinsv == pins.deep_view(),
            r.deep_view() == role_names(pinsv.take(i as int), role),
        decreases pins.len() - i,
    {
        proof {
            reveal(Seq::filter);
            let ghost ii = i as int;
            assert(pinsv.take(ii + 1).drop_last() =~= pinsv.take(ii));
            assert(pinsv.take(ii + 1).last() == pinsv[ii]);
            assert(pinsv[ii] == pins[ii]@);
        }
        if pins[i].role == role {
            let ghost prev = r.deep_view();
            r.push(pins[i].name.clone());
            proof {
                assert(r.deep_view() =~= prev.push(pinsv[i as int].name));
                assert(role_names(pinsv.take(i as int), role).push(pinsv[i as int].name)
                    =~= role_names(pinsv.take(i + 1), role));
            }
        } else {
            proof {
                assert(role_names(pinsv.take(i as int), role) =~= role_names(
                    pinsv.take(i + 1),
                    role,
                ));
            }
        }
        i = i + 1;
    }
    proof {
        assert(pinsv.take(pinsv.len() as int) =~= pinsv);
    }
    r
}

impl Instruction {
    /// The instruction rendered for display: its schematic's name followed
    /// by its bindings, space-separated.
    pub fn render(&self) -> (r: String)
        ensures
            r@ == render_instr(self@),
    {
        let mut s = self.schematic_name.clone();
        append_names(&mut s, &self.pin_bindings);
        s
    }
}

/// Mathematical model of a [`Schematic`].
#[verifier::ext_equal]
pub ghost struct SchematicV {
    pub name: Seq<char>,
    pub pins: Seq<PinV>,
    pub body: Seq<InstrV>,
}

impl SchematicV {
    /// The number of pins that take part in an instantiation's binding list:
    /// the inputs and outputs.  Locals are internal to the schematic.
    pub open spec fn io_count(self) -> nat {
        self.pins.filter(|p: PinV| p.role != Role::Local).len()
    }

    /// The number of local pins.
    pub open spec fn locals_count(self) -> nat {
        self.pins.filter(|p: PinV| p.role == Role::Local).len()
    }

    /// All input pins precede all output pins, which precede all local pins.
    /// The elaborator maps formal pins to actual bindings positionally, so
    /// this block ordering is part of the type's invariant.
    pub open spec fn pins_ordered(self) -> bool {
        forall|i: int, j: int|
            0 <= i <= j < self.pins.len() ==> role_rank(self.pins[i].role) <= role_rank(
                self.pins[j].role,
            )
    }

    /// Every name a body instruction binds is the name of one of the
    /// schematic's pins.  [`Schematic::new`] guarantees this by inferring a
    /// local pin for every bound name that is not a declared input or output.
    pub open spec fn bindings_bound(self) -> bool {
        forall|i: int, j: int|
            0 <= i < self.body.len() && 0 <= j < self.body[i].bindings.len()
                ==> pin_index(self.pins, self.body[i].bindings[j]) is Some
    }

    /// The well-formedness invariant that every constructed schematic enjoys.
    pub open spec fn wf(self) -> bool {
        self.pins_ordered() && self.bindings_bound()
    }
}

/// Orders the pin roles as a schematic's pin list must: inputs, outputs,
/// locals.
pub open spec fn role_rank(r: Role) -> int {
    match r {
        Role::Input => 0,
        Role::Output => 1,
        Role::Local => 2,
    }
}

/// A name that contains no `.` character.  Every identifier a source design
/// can legally use is plain, because the lexer builds identifiers from
/// letters and digits alone; every generated wire name is not.
pub open spec fn plain_name(n: Seq<char>) -> bool {
    forall|k: int| 0 <= k < n.len() ==> n[k] != '.'
}

/// An instruction all of whose names are plain.
pub open spec fn instr_plain(i: InstrV) -> bool {
    plain_name(i.name) && forall|p: int|
        0 <= p < i.bindings.len() ==> plain_name(#[trigger] i.bindings[p])
}

/// A schematic all of whose names — its own, its pins' and its body's — are
/// plain, as every schematic parsed from source text is.
pub open spec fn schematic_plain(s: SchematicV) -> bool {
    &&& plain_name(s.name)
    &&& forall|j: int| 0 <= j < s.pins.len() ==> plain_name((#[trigger] s.pins[j]).name)
    &&& forall|k: int| 0 <= k < s.body.len() ==> instr_plain(#[trigger] s.body[k])
}

/// The index of the first pin named `name`, if any.
pub open spec fn pin_index(pins: Seq<PinV>, name: Seq<char>) -> Option<int>
    decreases pins.len(),
{
    if pins.len() == 0 {
        None
    } else if pins[0].name == name {
        Some(0int)
    } else {
        match pin_index(pins.drop_first(), name) {
            Some(i) => Some(i + 1),
            None => None,
        }
    }
}

/// Every name bound anywhere in `body`, instruction by instruction, binding by
/// binding, in order.
pub open spec fn all_bindings(body: Seq<InstrV>) -> Seq<Seq<char>> {
    body.map_values(|i: InstrV| i.bindings).flatten()
}

/// The subsequence of `names` that keeps the first occurrence of each name not
/// in `excluded` and drops everything else.
pub open spec fn first_occurrences(names: Seq<Seq<char>>, excluded: Seq<Seq<char>>) -> Seq<
    Seq<char>,
>
    decreases names.len(),
{
    if names.len() == 0 {
        Seq::empty()
    } else if excluded.contains(names[0]) {
        first_occurrences(names.drop_first(), excluded)
    } else {
        seq![names[0]] + first_occurrences(names.drop_first(), excluded.push(names[0]))
    }
}

/// The local pin names a schematic with the given declared interface and body
/// is inferred to have: every bound name that is neither a declared input nor
/// a declared output, in order of first occurrence.
pub open spec fn inferred_locals(
    body: Seq<InstrV>,
    inputs: Seq<Seq<char>>,
    outputs: Seq<Seq<char>>,
) -> Seq<Seq<char>> {
    first_occurrences(all_bindings(body), inputs + outputs)
}

/// The pin list built from declared inputs, declared outputs and inferred
/// locals, in that order.
pub open spec fn make_pins(
    inputs: Seq<Seq<char>>,
    outputs: Seq<Seq<char>>,
    locals: Seq<Seq<char>>,
) -> Seq<PinV> {
    inputs.map_values(|n: Seq<char>| PinV { name: n, role: Role::Input })
        + outputs.map_values(|n: Seq<char>| PinV { name: n, role: Role::Output })
        + locals.map_values(|n: Seq<char>| PinV { name: n, role: Role::Local })
}

/// The model of the schematic [`Schematic::new`] builds.
pub open spec fn make_schematic(
    name: Seq<char>,
    inputs: Seq<Seq<char>>,
    outputs: Seq<Seq<char>>,
    body: Seq<InstrV>,
) -> SchematicV {
    SchematicV {
        name: name,
        pins: make_pins(inputs, outputs, inferred_locals(body, inputs, outputs)),
        body: body,
    }
}

/// A pin list holds an index for every name some pin carries.
pub proof fn lemma_pin_index_exists(pins: Seq<PinV>, b: Seq<char>)
    requires
        exists|j: int| 0 <= j < pins.len() && pins[j].name == b,
    ensures
        pin_index(pins, b) is Some,
    decreases pins.len(),
{
    if pins[0].name != b {
        let j = choose|j: int| 0 <= j < pins.len() && pins[j].name == b;
        assert(pins.drop_first()[j - 1] == pins[j]);
        lemma_pin_index_exists(pins.drop_first(), b);
    }
}

/// Every name that occurs in `names` is kept by `first_occurrences` unless
/// it was excluded.
pub proof fn lemma_first_occurrences_complete(
    names: Seq<Seq<char>>,
    excluded: Seq<Seq<char>>,
    b: Seq<char>,
)
    requires
        names.contains(b),
    ensures
        excluded.contains(b) || first_occurrences(names, excluded).contains(b),
    decreases names.len(),
{
    broadcast use vstd::seq_lib::lemma_seq_concat_contains_all_elements;
    broadcast use vstd::seq_lib::lemma_seq_contains_after_push;

    if b == names[0] {
        if !excluded.contains(b) {
            assert(first_occurrences(names, excluded)[0] == b);
        }
    } else {
        let i = choose|i: int| 0 <= i < names.len() && names[i] == b;
        assert(names.drop_first()[i - 1] == b);
        assert(names.drop_first().contains(b));
        if excluded.contains(names[0]) {
            lemma_first_occurrences_complete(names.drop_first(), excluded, b);
        } else {
            lemma_first_occurrences_complete(names.drop_first(), excluded.push(names[0]), b);
            if excluded.push(names[0]).contains(b) {
                assert(excluded.contains(b));
            } else {
                assert(first_occurrences(names.drop_first(), excluded.push(names[0])).contains(b));
            }
        }
    }
}

/// Every binding of every body instruction occurs in `all_bindings`.
pub proof fn lemma_all_bindings_contains(body: Seq<InstrV>, k: int, p: int)
    requires
        0 <= k < body.len(),
        0 <= p < body[k].bindings.len(),
    ensures
        all_bindings(body).contains(body[k].bindings[p]),
    decreases k,
{
    let m = body.map_values(|i: InstrV| i.bindings);
    assert(m.flatten() == m[0] + m.drop_first().flatten());
    if k == 0 {
        assert(m[0][p] == body[0].bindings[p]);
        assert((m[0] + m.drop_first().flatten())[p] == m[0][p]);
        assert(all_bindings(body).contains(body[k].bindings[p]));
    } else {
        assert(body.drop_first().map_values(|i: InstrV| i.bindings) =~= m.drop_first());
        lemma_all_bindings_contains(body.drop_first(), k - 1, p);
        let q = choose|q: int|
            0 <= q < all_bindings(body.drop_first()).len() && all_bindings(body.drop_first())[q]
                == body.drop_first()[k - 1].bindings[p];
        assert((m[0] + m.drop_first().flatten())[m[0].len() + q] == m.drop_first().flatten()[q]);
        assert(all_bindings(body).contains(body[k].bindings[p]));
    }
}

/// What [`Schematic::new`] builds is well formed: the pin roles stand in
/// their blocks, and every bound name has its pin — a declared one for the
/// interface, an inferred one for everything else.
pub proof fn lemma_make_schematic_wf(
    name: Seq<char>,
    inputs: Seq<Seq<char>>,
    outputs: Seq<Seq<char>>,
    body: Seq<InstrV>,
)
    ensures
        make_schematic(name, inputs, outputs, body).wf(),
{
    broadcast use vstd::seq_lib::lemma_seq_concat_contains_all_elements;

    let s = make_schematic(name, inputs, outputs, body);
    let locals = inferred_locals(body, inputs, outputs);
    let inpins = inputs.map_values(|n: Seq<char>| PinV { name: n, role: Role::Input });
    let outpins = outputs.map_values(|n: Seq<char>| PinV { name: n, role: Role::Output });
    let locpins = locals.map_values(|n: Seq<char>| PinV { name: n, role: Role::Local });
    assert forall|i: int, j: int| 0 <= i <= j < s.pins.len() implies role_rank(s.pins[i].role)
        <= role_rank(s.pins[j].role) by {
        assert(s.pins == (inpins + outpins) + locpins);
        if i < inpins.len() {
            assert(s.pins[i] == inpins[i]);
        } else if i < inpins.len() + outpins.len() {
            assert(s.pins[i] == outpins[i - inpins.len()]);
        } else {
            assert(s.pins[i] == locpins[i - inpins.len() - outpins.len()]);
        }
        if j < inpins.len() {
            assert(s.pins[j] == inpins[j]);
        } else if j < inpins.len() + outpins.len() {
            assert(s.pins[j] == outpins[j - inpins.len()]);
        } else {
            assert(s.pins[j] == locpins[j - inpins.len() - outpins.len()]);
        }
    }
    assert forall|k: int, p: int|
        0 <= k < s.body.len() && 0 <= p < s.body[k].bindings.len() implies pin_index(
        s.pins,
        s.body[k].bindings[p],
    ) is Some by {
        let b = s.body[k].bindings[p];
        lemma_all_bindings_contains(body, k, p);
        lemma_first_occurrences_complete(all_bindings(body), inputs + outputs, b);
        if (inputs + outputs).contains(b) {
            let i = choose|i: int| 0 <= i < (inputs + outputs).len() && (inputs + outputs)[i] == b;
            if i < inputs.len() {
                assert(s.pins[i] == inpins[i]);
                assert(s.pins[i].name == b);
            } else {
                assert(s.pins[i] == outpins[i - inputs.len()]);
                assert(s.pins[i].name == b);
            }
            lemma_pin_index_exists(s.pins, b);
        } else {
            let i = choose|i: int| 0 <= i < locals.len() && locals[i] == b;
            assert(s.pins[inpins.len() + outpins.len() + i] == locpins[i]);
            assert(s.pins[inpins.len() + outpins.len() + i].name == b);
            lemma_pin_index_exists(s.pins, b);
        }
    }
}

/// Whatever `first_occurrences` keeps occurred in the scanned names.
pub proof fn lemma_first_occurrences_subset(names: Seq<Seq<char>>, excluded: Seq<Seq<char>>)
    ensures
        forall|q: int|
            0 <= q < first_occurrences(names, excluded).len() ==> names.contains(
                #[trigger] first_occurrences(names, excluded)[q],
            ),
    decreases names.len(),
{
    if names.len() > 0 {
        let rest = names.drop_first();
        assert(forall|q: int| 0 <= q < rest.len() ==> names.contains(#[trigger] rest[q])) by {
            assert(forall|q: int| 0 <= q < rest.len() ==> rest[q] == names[q + 1]);
        }
        if excluded.contains(names[0]) {
            lemma_first_occurrences_subset(rest, excluded);
            assert forall|q: int|
                0 <= q < first_occurrences(names, excluded).len() implies names.contains(
                #[trigger] first_occurrences(names, excluded)[q],
            ) by {
                assert(first_occurrences(names, excluded)[q] == first_occurrences(
                    rest,
                    excluded,
                )[q]);
                assert(rest.contains(first_occurrences(rest, excluded)[q]));
                let w = choose|w: int|
                    0 <= w < rest.len() && rest[w] == first_occurrences(rest, excluded)[q];
                assert(names[w + 1] == rest[w]);
            }
        } else {
            lemma_first_occurrences_subset(rest, excluded.push(names[0]));
            assert forall|q: int|
                0 <= q < first_occurrences(names, excluded).len() implies names.contains(
                #[trigger] first_occurrences(names, excluded)[q],
            ) by {
                if q == 0 {
                    assert(first_occurrences(names, excluded)[0] == names[0]);
                } else {
                    assert(first_occurrences(names, excluded)[q] == first_occurrences(
                        rest,
                        excluded.push(names[0]),
                    )[q - 1]);
                    let e2 = excluded.push(names[0]);
                    assert(rest.contains(first_occurrences(rest, e2)[q - 1]));
                    let w = choose|w: int|
                        0 <= w < rest.len() && rest[w] == first_occurrences(rest, e2)[q - 1];
                    assert(names[w + 1] == rest[w]);
                }
            }
        }
    }
}

/// If every body binding is plain, so is every name `all_bindings` lists.
pub proof fn lemma_all_bindings_plain(body: Seq<InstrV>)
    requires
        forall|k: int| 0 <= k < body.len() ==> instr_plain(#[trigger] body[k]),
    ensures
        forall|q: int|
            0 <= q < all_bindings(body).len() ==> plain_name(#[trigger] all_bindings(body)[q]),
    decreases body.len(),
{
    if body.len() > 0 {
        let m = body.map_values(|i: InstrV| i.bindings);
        assert(m.flatten() == m[0] + m.drop_first().flatten());
        assert(body.drop_first().map_values(|i: InstrV| i.bindings) =~= m.drop_first());
        assert(forall|k: int|
            0 <= k < body.drop_first().len() ==> #[trigger] body.drop_first()[k] == body[k + 1]);
        lemma_all_bindings_plain(body.drop_first());
        assert forall|q: int| 0 <= q < all_bindings(body).len() implies plain_name(
            #[trigger] all_bindings(body)[q],
        ) by {
            if q < m[0].len() {
                assert(all_bindings(body)[q] == body[0].bindings[q]);
            } else {
                assert(all_bindings(body)[q] == all_bindings(body.drop_first())[q - m[0].len()]);
            }
        }
    }
}

/// A schematic built from plain declared names and a plain body is plain
/// throughout: its inferred locals are bound names of the body, so they are
/// plain too.
pub proof fn lemma_make_schematic_plain(
    name: Seq<char>,
    inputs: Seq<Seq<char>>,
    outputs: Seq<Seq<char>>,
    body: Seq<InstrV>,
)
    requires
        plain_name(name),
        forall|j: int| 0 <= j < inputs.len() ==> plain_name(#[trigger] inputs[j]),
        forall|j: int| 0 <= j < outputs.len() ==> plain_name(#[trigger] outputs[j]),
        forall|k: int| 0 <= k < body.len() ==> instr_plain(#[trigger] body[k]),
    ensures
        schematic_plain(make_schematic(name, inputs, outputs, body)),
{
    let s = make_schematic(name, inputs, outputs, body);
    let locals = inferred_locals(body, inputs, outputs);
    let inpins = inputs.map_values(|n: Seq<char>| PinV { name: n, role: Role::Input });
    let outpins = outputs.map_values(|n: Seq<char>| PinV { name: n, role: Role::Output });
    let locpins = locals.map_values(|n: Seq<char>| PinV { name: n, role: Role::Local });
    lemma_first_occurrences_subset(all_bindings(body), inputs + outputs);
    lemma_all_bindings_plain(body);
    assert forall|j: int| 0 <= j < s.pins.len() implies plain_name(
        (#[trigger] s.pins[j]).name,
    ) by {
        assert(s.pins == (inpins + outpins) + locpins);
        if j < inpins.len() {
            assert(s.pins[j] == inpins[j]);
        } else if j < inpins.len() + outpins.len() {
            assert(s.pins[j] == outpins[j - inpins.len()]);
        } else {
            let q = j - inpins.len() - outpins.len();
            assert(s.pins[j] == locpins[q]);
            assert(locpins[q].name == locals[q]);
            assert(all_bindings(body).contains(locals[q]));
            let w = choose|w: int|
                0 <= w < all_bindings(body).len() && all_bindings(body)[w] == locals[q];
            assert(plain_name(all_bindings(body)[w]));
        }
    }
}

/// No two pins of the schematic share a name.  The constructor cannot
/// enforce this unaided — the declared interface comes from the author — but
/// establishes it whenever the declared input and output names are pairwise
/// distinct, since inferred locals are deduplicated and never shadow the
/// interface.
pub open spec fn pin_names_unique(s: SchematicV) -> bool {
    forall|i: int, j: int|
        0 <= i < j < s.pins.len() ==> (#[trigger] s.pins[i]).name != (#[trigger] s.pins[j]).name
}

/// What `first_occurrences` keeps is duplicate-free and disjoint from the
/// excluded names.
pub proof fn lemma_first_occurrences_distinct(names: Seq<Seq<char>>, excluded: Seq<Seq<char>>)
    ensures
        first_occurrences(names, excluded).no_duplicates(),
        forall|q: int|
            0 <= q < first_occurrences(names, excluded).len() ==> !excluded.contains(
                #[trigger] first_occurrences(names, excluded)[q],
            ),
    decreases names.len(),
{
    broadcast use vstd::seq_lib::lemma_seq_contains_after_push;

    if names.len() > 0 {
        let rest = names.drop_first();
        if excluded.contains(names[0]) {
            lemma_first_occurrences_distinct(rest, excluded);
        } else {
            lemma_first_occurrences_distinct(rest, excluded.push(names[0]));
            let tail = first_occurrences(rest, excluded.push(names[0]));
            let whole = first_occurrences(names, excluded);
            assert(whole == seq![names[0]] + tail);
            assert(whole[0] == names[0]);
            assert(forall|q: int| 0 <= q < tail.len() ==> #[trigger] whole[q + 1] == tail[q]);
            assert forall|i: int, j: int| 0 <= i < j < whole.len() implies whole[i]
                != whole[j] by {
                if i == 0 {
                    assert(!excluded.push(names[0]).contains(tail[j - 1]));
                    assert(whole[j] == tail[j - 1]);
                } else {
                    assert(whole[i] == tail[i - 1] && whole[j] == tail[j - 1]);
                }
            }
        }
    }
}

/// When the declared input and output names are pairwise distinct, every
/// pin of the constructed schematic carries its own name: the uniqueness
/// invariant of a schematic's pin set.
pub proof fn lemma_make_schematic_pin_names_unique(
    name: Seq<char>,
    inputs: Seq<Seq<char>>,
    outputs: Seq<Seq<char>>,
    body: Seq<InstrV>,
)
    requires
        (inputs + outputs).no_duplicates(),
    ensures
        pin_names_unique(make_schematic(name, inputs, outputs, body)),
{
    let s = make_schematic(name, inputs, outputs, body);
    let io = inputs + outputs;
    let locals = inferred_locals(body, inputs, outputs);
    let inpins = inputs.map_values(|n: Seq<char>| PinV { name: n, role: Role::Input });
    let outpins = outputs.map_values(|n: Seq<char>| PinV { name: n, role: Role::Output });
    let locpins = locals.map_values(|n: Seq<char>| PinV { name: n, role: Role::Local });
    lemma_first_occurrences_distinct(all_bindings(body), io);
    assert forall|i: int, j: int| 0 <= i < j < s.pins.len() implies (#[trigger] s.pins[i]).name
        != (#[trigger] s.pins[j]).name by {
        assert(s.pins == (inpins + outpins) + locpins);
        let ni = if i < io.len() {
            io[i]
        } else {
            locals[i - io.len()]
        };
        let nj = if j < io.len() {
            io[j]
        } else {
            locals[j - io.len()]
        };
        assert(s.pins[i].name == ni) by {
            if i < inputs.len() {
                assert(s.pins[i] == inpins[i]);
            } else if i < io.len() {
                assert(s.pins[i] == outpins[i - inputs.len()]);
            } else {
                assert(s.pins[i] == locpins[i - io.len()]);
            }
        }
        assert(s.pins[j].name == nj) by {
            if j < inputs.len() {
                assert(s.pins[j] == inpins[j]);
            } else if j < io.len() {
                assert(s.pins[j] == outpins[j - inputs.len()]);
            } else {
                assert(s.pins[j] == locpins[j - io.len()]);
            }
        }
        if i < io.len() && j < io.len() {
        } else if i < io.len() {
            assert(!io.contains(locals[j - io.len()]));
            assert(io.contains(io[i]));
        } else {
            let qi = i - io.len();
            let qj = j - io.len();
            assert(locals[qi] != locals[qj]);
        }
    }
}

/// True iff some element of `v` has the same characters as `x`.
pub(crate) fn contains_name(v: &Vec<String>, x: &String) -> (r: bool)
    ensures
        r == v.deep_view().contains(x@),
{
    let mut i: usize = 0;
    while i < v.len()
        invariant
            i <= v.len(),
            forall|k: int| 0 <= k < i ==> v.deep_view()[k] != x@,
        decreases v.len() - i,
    {
        if v[i].eq(x) {
            proof {
                assert(v.deep_view()[i as int] == x@);
                assert(v.deep_view().contains(x@));
            }
            return true;
        }
        i = i + 1;
    }
    false
}

/// A named reusable circuit definition.
#[derive(Debug)]
pub struct Schematic {
    pub name: String,
    pub pins: Vec<Pin>,
    pub body: Vec<Instruction>,
}

impl View for Schematic {
    type V = SchematicV;

    open spec fn view(&self) -> SchematicV {
        SchematicV {
            name: self.name@,
            pins: self.pins.deep_view(),
            body: self.body.deep_view(),
        }
    }
}

impl DeepView for Schematic {
    type V = SchematicV;

    open spec fn deep_view(&self) -> SchematicV {
        self.view()
    }
}

impl Clone for Schematic {
    fn clone(&self) -> (r: Self)
        ensures
            r@ == self@,
    {
        let pins = self.pins.clone();
        let body = self.body.clone();
        proof {
            assert(pins.deep_view() =~= self.pins.deep_view());
            assert(body.deep_view() =~= self.body.deep_view());
        }
        Schematic { name: self.name.clone(), pins, body }
    }
}

impl Schematic {
    /// Builds a schematic from its name, its declared input and output pin
    /// names, and its body.  Local pins are not declared by the author: every
    /// name bound somewhere in the body that is neither a declared input nor
    /// a declared output becomes a local pin, in order of first occurrence.
    pub fn new(name: String, io_pins: (Vec<String>, Vec<String>), body: Vec<Instruction>) -> (r:
        Self)
        ensures
            r@ == make_schematic(
                name@,
                io_pins.0.deep_view(),
                io_pins.1.deep_view(),
                body.deep_view(),
            ),
            r@.wf(),
    {
        proof {
            lemma_make_schematic_wf(
                name@,
                io_pins.0.deep_view(),
                io_pins.1.deep_view(),
                body.deep_view(),
            );
        }
        let (inputs, outputs) = io_pins;
        let ghost bodyv = body.deep_view();
        let ghost insv = inputs.deep_view();
        let ghost outsv = outputs.deep_view();

        // Every bound name, instruction by instruction, in order.
        let mut names: Vec<String> = Vec::new();
        let mut i: usize = 0;
        proof {
            assert(bodyv.take(0).map_values(|ins: InstrV| ins.bindings)
                =~= Seq::<Seq<Seq<char>>>::empty());
            assert(all_bindings(bodyv.take(0)) =~= Seq::<Seq<char>>::empty());
        }
        while i < body.len()
            invariant
                i <= body.len(),
                bodyv == body.deep_view(),
                names.deep_view() == all_bindings(bodyv.take(i as int)),
            decreases body.len() - i,
        {
            let mut j: usize = 0;
            proof {
                assert(bodyv[i as int].bindings.take(0) =~= Seq::<Seq<char>>::empty());
                assert(names.deep_view() =~= all_bindings(bodyv.take(i as int)) + bodyv[
                    i as int
                ].bindings.take(0));
            }
            while j < body[i].pin_bindings.len()
                invariant
                    i < body.len(),
                    j <= body[i as int].pin_bindings.len(),
                    bodyv == body.deep_view(),
                    names.deep_view() == all_bindings(bodyv.take(i as int)) + bodyv[
                        i as int
                    ].bindings.take(j as int),
                decreases body[i as int].pin_bindings.len() - j,
            {
                let ghost prev = names.deep_view();
                names.push(body[i].pin_bindings[j].clone());
                proof {
                    let ghost ii = i as int;
                    let ghost jj = j as int;
                    assert(names.deep_view() =~= prev.push(bodyv[ii].bindings[jj]));
                    assert(all_bindings(bodyv.take(ii)) + bodyv[ii].bindings.take(jj + 1)
                        =~= prev.push(bodyv[ii].bindings[jj]));
                }
                j = j + 1;
            }
            proof {
                let ghost ii = i as int;
                let m = bodyv.take(ii).map_values(|ins: InstrV| ins.bindings);
                assert(bodyv[ii].bindings.take(bodyv[ii].bindings.len() as int)
                    =~= bodyv[ii].bindings);
                assert(bodyv.take(ii + 1).map_values(|ins: InstrV| ins.bindings) =~= m.push(
                    bodyv[ii].bindings,
                ));
                m.lemma_flatten_push(bodyv[ii].bindings);
                assert(names.deep_view() =~= all_bindings(bodyv.take(ii + 1)));
            }
            i = i + 1;
        }
        proof {
            assert(bodyv.take(bodyv.len() as int) =~= bodyv);
        }

        // Keep the first occurrence of each bound name that is not part of
        // the declared interface: these are the inferred locals.
        let ghost namesv = names.deep_view();
        let mut locals: Vec<String> = Vec::new();
        let mut k: usize = 0;
        proof {
            assert(namesv.skip(0) =~= namesv);
            assert((insv + outsv) + locals.deep_view() =~= insv + outsv);
        }
        while k < names.len()
            invariant
                k <= names.len(),
                namesv == names.deep_view(),
                insv == inputs.deep_view(),
                outsv == outputs.deep_view(),
                first_occurrences(namesv, insv + outsv) == locals.deep_view()
                    + first_occurrences(
                    namesv.skip(k as int),
                    (insv + outsv) + locals.deep_view(),
                ),
            decreases names.len() - k,
        {
            let ghost kk = k as int;
            let in_interface = contains_name(&inputs, &names[k]) || contains_name(
                &outputs,
                &names[k],
            );
            let already_local = contains_name(&locals, &names[k]);
            proof {
                broadcast use vstd::seq_lib::lemma_seq_concat_contains_all_elements;

                assert(namesv.skip(kk)[0] == namesv[kk]);
                assert(namesv.skip(kk).drop_first() =~= namesv.skip(kk + 1));
                assert(names@[kk]@ == namesv[kk]);
                assert(((insv + outsv) + locals.deep_view()).contains(namesv[kk]) == (in_interface
                    || already_local));
            }
            if in_interface || already_local {
                proof {
                    assert(first_occurrences(
                        namesv.skip(kk),
                        (insv + outsv) + locals.deep_view(),
                    ) == first_occurrences(namesv.skip(kk + 1), (insv + outsv) + locals.deep_view()));
                }
                k = k + 1;
            } else {
                let ghost prev = locals.deep_view();
                locals.push(names[k].clone());
                proof {
                    assert(locals.deep_view() =~= prev.push(namesv[kk]));
                    assert(first_occurrences(namesv.skip(kk), (insv + outsv) + prev) == seq![
                        namesv[kk],
                    ] + first_occurrences(
                        namesv.skip(kk + 1),
                        ((insv + outsv) + prev).push(namesv[kk]),
                    ));
                    assert((insv + outsv) + locals.deep_view() =~= ((insv + outsv) + prev).push(
                        namesv[kk],
                    ));
                    assert(locals.deep_view() + first_occurrences(
                        namesv.skip(kk + 1),
                        (insv + outsv) + locals.deep_view(),
                    ) =~= prev + (seq![namesv[kk]] + first_occurrences(
                        namesv.skip(kk + 1),
                        (insv + outsv) + locals.deep_view(),
                    )));
                }
                k = k + 1;
            }
        }
        proof {
            assert(namesv.skip(namesv.len() as int) =~= Seq::<Seq<char>>::empty());
            assert(first_occurrences(
                Seq::<Seq<char>>::empty(),
                (insv + outsv) + locals.deep_view(),
            ) == Seq::<Seq<char>>::empty());
            assert(locals.deep_view() + Seq::<Seq<char>>::empty() =~= locals.deep_view());
            assert(locals.deep_view() == inferred_locals(bodyv, insv, outsv));
        }

        // Assemble the pin list: inputs, then outputs, then inferred locals.
        let ghost localsv = locals.deep_view();
        let mut pins: Vec<Pin> = Vec::new();
        let mut a: usize = 0;
        proof {
            assert(pins.deep_view() =~= insv.take(0).map_values(
                |n: Seq<char>| PinV { name: n, role: Role::Input },
            ));
        }
        while a < inputs.len()
            invariant
                a <= inputs.len(),
                insv == inputs.deep_view(),
                pins.deep_view() == insv.take(a as int).map_values(
                    |n: Seq<char>| PinV { name: n, role: Role::Input },
                ),
            decreases inputs.len() - a,
        {
            let ghost prev = pins.deep_view();
            pins.push(Pin { name: inputs[a].clone(), role: Role::Input });
            proof {
                let ghost aa = a as int;
                assert(pins.deep_view() =~= prev.push(PinV { name: insv[aa], role: Role::Input }));
                assert(insv.take(aa + 1).map_values(
                    |n: Seq<char>| PinV { name: n, role: Role::Input },
                ) =~= prev.push(PinV { name: insv[aa], role: Role::Input }));
            }
            a = a + 1;
        }
        proof {
            assert(insv.take(insv.len() as int) =~= insv);
        }
        let ghost inpins = insv.map_values(|n: Seq<char>| PinV { name: n, role: Role::Input });
        let mut b: usize = 0;
        proof {
            assert(outsv.take(0).map_values(|n: Seq<char>| PinV { name: n, role: Role::Output })
                =~= Seq::<PinV>::empty());
            assert(pins.deep_view() =~= inpins + outsv.take(0).map_values(
                |n: Seq<char>| PinV { name: n, role: Role::Output },
            ));
        }
        while b < outputs.len()
            invariant
                b <= outputs.len(),
                outsv == outputs.deep_view(),
                pins.deep_view() == inpins + outsv.take(b as int).map_values(
                    |n: Seq<char>| PinV { name: n, role: Role::Output },
                ),
            decreases outputs.len() - b,
        {
            let ghost prev = pins.deep_view();
            pins.push(Pin { name: outputs[b].clone(), role: Role::Output });
            proof {
                let ghost bb = b as int;
                assert(pins.deep_view() =~= prev.push(PinV { name: outsv[bb], role: Role::Output }));
                assert(inpins + outsv.take(bb + 1).map_values(
                    |n: Seq<char>| PinV { name: n, role: Role::Output },
                ) =~= prev.push(PinV { name: outsv[bb], role: Role::Output }));
            }
            b = b + 1;
        }
        proof {
            assert(outsv.take(outsv.len() as int) =~= outsv);
        }
        let ghost iopins = inpins + outsv.map_values(
            |n: Seq<char>| PinV { name: n, role: Role::Output },
        );
        let mut c: usize = 0;
        proof {
            assert(localsv.take(0).map_values(|n: Seq<char>| PinV { name: n, role: Role::Local })
                =~= Seq::<PinV>::empty());
            assert(pins.deep_view() =~= iopins + localsv.take(0).map_values(
                |n: Seq<char>| PinV { name: n, role: Role::Local },
            ));
        }
        while c < locals.len()
            invariant
                c <= locals.len(),
                localsv == locals.deep_view(),
                pins.deep_view() == iopins + localsv.take(c as int).map_values(
                    |n: Seq<char>| PinV { name: n, role: Role::Local },
                ),
            decreases locals.len() - c,
        {
            let ghost prev = pins.deep_view();
            pins.push(Pin { name: locals[c].clone(), role: Role::Local });
            proof {
                let ghost cc = c as int;
                assert(pins.deep_view() =~= prev.push(PinV { name: localsv[cc], role: Role::Local }));
                assert(iopins + localsv.take(cc + 1).map_values(
                    |n: Seq<char>| PinV { name: n, role: Role::Local },
                ) =~= prev.push(PinV { name: localsv[cc], role: Role::Local }));
            }
            c = c + 1;
        }
        proof {
            assert(localsv.take(localsv.len() as int) =~= localsv);
            assert(pins.deep_view() =~= make_pins(insv, outsv, localsv));
        }
        Schematic { name, pins, body }
    }
}

/// A schematic rendered for display: a `scheme` header with the interface,
/// a comment line naming the locals, the body one instruction per line, and
/// a closing `end`.
pub open spec fn render_schematic(s: SchematicV) -> Seq<char> {
    "scheme "@ + s.name + render_names(role_names(s.pins, Role::Input)) + " ->"@ + render_names(
        role_names(s.pins, Role::Output),
    ) + "\n"@ + "  -- Locals:"@ + render_names(role_names(s.pins, Role::Local)) + "\n"@
        + render_body(s.body) + "end\n\n"@
}

impl Schematic {
    /// The schematic rendered for display, as [`render_schematic`]
    /// describes.
    pub fn render(&self) -> (r: String)
        ensures
            r@ == render_schematic(self@),
    {
        let ghost bodyv = self@.body;
        let mut s = String::from_str("scheme ");
        s.append(self.name.as_str());
        append_names(&mut s, &names_with_role(&self.pins, Role::Input));
        s.append(" ->");
        append_names(&mut s, &names_with_role(&self.pins, Role::Output));
        s.append("\n");
        s.append("  -- Locals:");
        append_names(&mut s, &names_with_role(&self.pins, Role::Local));
        s.append("\n");
        let ghost header = s@;
        let mut k: usize = 0;
        proof {
            assert(bodyv.take(0) =~= Seq::<InstrV>::empty());
            assert(header + render_body(bodyv.take(0)) =~= header);
        }
        while k < self.body.len()
            invariant
                k <= self.body.len(),
                bodyv == self@.body,
                s@ == header + render_body(bodyv.take(k as int)),
            decreases self.body.len() - k,
        {
            let line = self.body[k].render();
            s.append(line.as_str());
            s.append("\n");
            proof {
                let ghost kk = k as int;
                assert(bodyv.take(kk + 1).drop_last() =~= bodyv.take(kk));
                assert(bodyv.take(kk + 1).last() == bodyv[kk]);
                assert(s@ =~= header + render_body(bodyv.take(kk + 1)));
            }
            k = k + 1;
        }
        s.append("end\n\n");
        proof {
            assert(bodyv.take(bodyv.len() as int) =~= bodyv);
            assert(s@ =~= render_schematic(self@));
        }
        s
    }
}

/// A schematic list rendered for display, one schematic after the other.
pub open spec fn render_schematics(ss: Seq<SchematicV>) -> Seq<char>
    decreases ss.len(),
{
    if ss.len() == 0 {
        Seq::empty()
    } else {
        render_schematics(ss.drop_last()) + render_schematic(ss.last())
    }
}

/// An ordered collection of schematic definitions: the library the elaborator
/// resolves instantiations against.
#[derive(Debug)]
pub struct Design {
    pub schematics: Vec<Schematic>,
}

/// Mathematical model of a [`Design`].
#[verifier::ext_equal]
pub ghost struct DesignV {
    pub schematics: Seq<SchematicV>,
}

impl View for Design {
    type V = DesignV;

    open spec fn view(&self) -> DesignV {
        DesignV { schematics: self.schematics.deep_view() }
    }
}

/// The first schematic named `name`, if any: lookup returns the first match,
/// so an earlier definition shadows a later duplicate.
pub open spec fn find_schematic(schematics: Seq<SchematicV>, name: Seq<char>) -> Option<SchematicV>
    decreases schematics.len(),
{
    if schematics.len() == 0 {
        None
    } else if schematics[0].name == name {
        Some(schematics[0])
    } else {
        find_schematic(schematics.drop_first(), name)
    }
}

impl Design {
    /// Wraps an ordered schematic list as a design.
    pub fn new(schematics: Vec<Schematic>) -> (r: Self)
        ensures
            r@.schematics == schematics.deep_view(),
    {
        Self { schematics }
    }

    /// Looks a schematic up by name; the first match wins.
    pub fn find(&self, name: &String) -> (r: Option<&Schematic>)
        ensures
            match r {
                Some(s) => find_schematic(self@.schematics, name@) == Some(s@),
                None => find_schematic(self@.schematics, name@) is None,
            },
    {
        let mut i: usize = 0;
        proof {
            assert(self@.schematics.skip(0) =~= self@.schematics);
        }
        while i < self.schematics.len()
            invariant
                i <= self.schematics.len(),
                find_schematic(self@.schematics, name@) == find_schematic(
                    self@.schematics.skip(i as int),
                    name@,
                ),
            decreases self.schematics.len() - i,
        {
            if self.schematics[i].name.eq(name) {
                proof {
                    assert(self@.schematics.skip(i as int)[0] == self@.schematics[i as int]);
                }
                return Some(&self.schematics[i]);
            }
            proof {
                assert(self@.schematics.skip(i as int).drop_first() =~= self@.schematics.skip(
                    i + 1,
                ));
            }
            i = i + 1;
        }
        None
    }

    /// The full schematic list, in definition order.
    pub fn get_schematics(&self) -> (r: &Vec<Schematic>)
        ensures
            r.deep_view() == self@.schematics,
    {
        &self.schematics
    }

    /// The design rendered for display: every schematic in order.
    pub fn render(&self) -> (r: String)
        ensures
            r@ == render_schematics(self@.schematics),
    {
        let ghost ssv = self@.schematics;
        let mut s = String::new();
        let mut k: usize = 0;
        proof {
            assert(ssv.take(0) =~= Seq::<SchematicV>::empty());
            assert(s@ + render_schematics(ssv.take(0)) =~= s@);
        }
        while k < self.schematics.len()
            invariant
                k <= self.schematics.len(),
                ssv == self@.schematics,
                s@ == render_schematics(ssv.take(k as int)),
            decreases self.schematics.len() - k,
        {
            let part = self.schematics[k].render();
            s.append(part.as_str());
            proof {
                let ghost kk = k as int;
                assert(ssv.take(kk + 1).drop_last() =~= ssv.take(kk));
                assert(ssv.take(kk + 1).last() == ssv[kk]);
                assert(s@ =~= render_schematics(ssv.take(kk + 1)));
            }
            k = k + 1;
        }
        proof {
            assert(ssv.take(ssv.len() as int) =~= ssv);
        }
        s
    }
}

} // verus!
