//! The document model: what a parsed hardware description holds.
use vstd::prelude::*;

verus! {

/// The kind of a pin on a component.
#[derive(Debug, Clone, Copy, PartialEq, Eq, Structural)]
pub enum InputKind {
    /// A ground pin, which may be shared by any number of wires.
    Ground,
    /// A general-purpose pin, wired point to point.
    Io,
}

/// The different kinds of components.
#[derive(Debug, Clone, Copy, PartialEq, Eq, Structural)]
pub enum ComponentKind {
    /// A microcontroller.
    Controller,
    /// A key switch.
    Switch,
    /// A rotary encoder.
    Encoder,
    /// Some other peripheral.
    Peripheral,
}

impl Default for ComponentKind {
    /// A component is a switch unless stated otherwise.
    fn default() -> (r: Self)
        ensures
            r == ComponentKind::Switch,
    {
        ComponentKind::Switch
    }
}

/// A named pin of a component definition.
#[derive(Debug)]
pub struct Input {
    /// The name of the pin.
    pub name: String,
    /// The kind of the pin.
    pub kind: InputKind,
}

/// The model of a pin: its name and its kind.
pub type InputModel = (Seq<char>, InputKind);

impl View for Input {
    type V = InputModel;

    open spec fn view(&self) -> InputModel {
        (self.name@, self.kind)
    }
}

/// The pin contract of a component type, written out in full.
#[derive(Debug)]
pub struct InlineDefinition {
    /// The name under which components refer to this definition.
    pub name: String,
    /// What kind of component this is.
    pub kind: ComponentKind,
    /// The pins, in order; wires address them by position.
    pub inputs: Vec<Input>,
}

/// The model of a fully realised definition.
pub struct DefinitionModel {
    /// The name of the definition.
    pub name: Seq<char>,
    /// The kind of component.
    pub kind: ComponentKind,
    /// The pins, in order.
    pub inputs: Seq<InputModel>,
}

impl View for InlineDefinition {
    type V = DefinitionModel;

    open spec fn view(&self) -> DefinitionModel {
        DefinitionModel {
            name: self.name@,
            kind: self.kind,
            inputs: self.inputs@.map_values(|i: Input| i@),
        }
    }
}

/// A definition to be taken from a document in another repository.
#[derive(Debug)]
pub struct RemoteDefinition {
    /// The local name of the definition.
    pub name: String,
    /// The repository that holds the document.
    pub repository: String,
    /// The path of the document within the repository.
    pub path: String,
    /// The name of the definition in that document; the local name when absent.
    pub target: Option<String>,
}

/// A definition, written in place or taken from elsewhere.
#[derive(Debug)]
pub enum Definition {
    /// A definition written in this document.
    Inline(InlineDefinition),
    /// A definition pulled from another document.
    Remote(RemoteDefinition),
}

/// A collection of definitions, as declared in one document node.
#[derive(Debug)]
pub struct Definitions {
    /// The definitions, in declaration order.
    pub definitions: Vec<Definition>,
}

/// The place of a component on the board.
#[derive(Debug, Clone, Copy, PartialEq, Eq, Structural)]
pub struct Location {
    /// The x position.
    pub x: u64,
    /// The y position.
    pub y: u64,
}

/// A wire from a component to one pin of another component.
#[derive(Debug, Clone, Copy, PartialEq, Eq, Structural)]
pub struct Output {
    /// The position of the target component in the keyboard's component list.
    pub target: u64,
    /// The position of the pin within the target's resolved definition.
    pub input: u64,
}

/// Why an output could not be read as a wire.
#[derive(Debug, Clone, Copy, PartialEq, Eq, Structural)]
pub enum ShapeError {
    /// Neither two positional values nor both `target` and `input` were given.
    Malformed,
}

impl Output {
    /// Reads an output written either as the pair `[target, input]` or as
    /// the keyed record `{target, input}`. The positional form is tried first;
    /// the keyed form counts only where no positional value is given.
    pub fn from_shapes(positional: &Vec<u64>, target: Option<u64>, input: Option<u64>) -> (r: Result<Output, ShapeError>)
        ensures
            positional@.len() == 2 ==> r == Ok::<Output, ShapeError>(
                Output { target: positional@[0], input: positional@[1] },
            ),
            positional@.len() == 0 && target is Some && input is Some ==> r == Ok::<
                Output,
                ShapeError,
            >(Output { target: target->Some_0, input: input->Some_0 }),
            r is Err <==> (positional@.len() != 2 && !(positional@.len() == 0 && target is Some
                && input is Some)),
    {
        if positional.len() == 2 {
            Ok(Output { target: positional[0], input: positional[1] })
        } else if positional.len() == 0 {
            match (target, input) {
                (Some(t), Some(i)) => Ok(Output { target: t, input: i }),
                _ => Err(ShapeError::Malformed),
            }
        } else {
            Err(ShapeError::Malformed)
        }
    }
}

/// A placed component on a keyboard.
#[derive(Debug)]
pub struct Component {
    /// The name of the definition of this component.
    pub definition: String,
    /// The rotation of the component in degrees; none means 0.
    pub rotation: Option<u64>,
    /// Where the component stands.
    pub location: Location,
    /// Where each output of this component goes.
    pub outputs: Vec<Output>,
}

/// The hardware description of a keyboard.
#[derive(Debug)]
pub struct Keyboard {
    /// The name of the keyboard.
    pub name: String,
    /// Who designed it.
    pub designer: Option<String>,
    /// When it was designed.
    pub designed: Option<String>,
    /// The components, in declaration order.
    pub components: Vec<Component>,
}

/// One top-level node of a document.
#[derive(Debug)]
pub enum KeyboardSpec {
    /// A keyboard.
    Keyboard(Keyboard),
    /// Definitions for the components of keyboards.
    Definition(Definitions),
}

/// The address of a remote definition: repository, path and target name.
pub type KeyModel = (Seq<char>, Seq<char>, Seq<char>);

/// The address of a definition in another repository's document.
#[derive(Debug)]
pub struct RemoteKey {
    /// The repository that holds the document.
    pub repository: String,
    /// The path of the document within the repository.
    pub path: String,
    /// The name of the definition within the document.
    pub target: String,
}

impl View for RemoteKey {
    type V = KeyModel;

    open spec fn view(&self) -> KeyModel {
        (self.repository@, self.path@, self.target@)
    }
}

/// The name looked up in the remote document: the target, or the local name.
pub open spec fn remote_key(r: RemoteDefinition) -> KeyModel {
    (
        r.repository@,
        r.path@,
        match r.target {
            Some(t) => t@,
            None => r.name@,
        },
    )
}

impl RemoteDefinition {
    /// The address that this definition is looked up under.
    pub fn key(&self) -> (r: RemoteKey)
        ensures
            r@ == remote_key(*self),
            self.target.is_none() ==> r.target@ == self.name@,
    {
        let target = match &self.target {
            Some(t) => t.clone(),
            None => self.name.clone(),
        };
        RemoteKey { repository: self.repository.clone(), path: self.path.clone(), target }
    }
}

impl RemoteKey {
    /// A copy of this key.
    pub fn duplicate(&self) -> (r: RemoteKey)
        ensures
            r@ == self@,
    {
        RemoteKey {
            repository: self.repository.clone(),
            path: self.path.clone(),
            target: self.target.clone(),
        }
    }

    /// Whether two keys address the same definition.
    pub fn same(&self, other: &RemoteKey) -> (r: bool)
        ensures
            r == (self@ == other@),
    {
        self.repository == other.repository && self.path == other.path && self.target
            == other.target
    }
}

impl Input {
    /// A copy of this pin.
    pub fn duplicate(&self) -> (r: Input)
        ensures
            r@ == self@,
    {
        Input { name: self.name.clone(), kind: self.kind }
    }
}

impl InlineDefinition {
    /// A copy of this definition under another name.
    pub fn renamed(&self, name: String) -> (r: InlineDefinition)
        ensures
            r@ == (DefinitionModel { name: name@, ..self@ }),
    {
        let mut inputs: Vec<Input> = Vec::new();
        let mut i: usize = 0;
        while i < self.inputs.len()
            invariant
                i <= self.inputs@.len(),
                inputs@.len() == i,
                forall|j: int| 0 <= j < i ==> inputs@[j]@ == self.inputs@[j]@,
            decreases self.inputs@.len() - i,
        {
            inputs.push(self.inputs[i].duplicate());
            i = i + 1;
        }
        assert(inputs@.map_values(|x: Input| x@) =~= self.inputs@.map_values(|x: Input| x@));
        InlineDefinition { name, kind: self.kind, inputs }
    }
}

} // verus!
