//! The design editor's model: document metadata and the palette of widget
//! kinds that can be placed.
use vstd::prelude::*;
use crate::text_input::{index_of_text, parse_index};
use crate::text_util::{chars_are, str_to_chars};

verus! {

/// Metadata about a design document.
#[derive(Debug, Clone)]
pub struct DesignMetadata {
    pub name: String,
    pub version: String,
}

impl Default for DesignMetadata {
    fn default() -> (m: Self)
        ensures
            m.name@ == Seq::<char>::empty(),
            m.version@ == Seq::<char>::empty(),
    {
        DesignMetadata { name: String::new(), version: String::new() }
    }
}

/// A kind of widget that the palette offers.
#[derive(Debug, Clone, Copy, PartialEq, Eq, Structural)]
pub enum WidgetType {
    Container,
    Label,
    Button,
    TextInput,
    Checkbox,
    Slider,
    Spacer,
    Icon,
}

/// The palette's widget kinds, in the order they are listed.
pub open spec fn palette() -> Seq<WidgetType> {
    seq![
        WidgetType::Container,
        WidgetType::Label,
        WidgetType::Button,
        WidgetType::TextInput,
        WidgetType::Checkbox,
        WidgetType::Slider,
        WidgetType::Spacer,
        WidgetType::Icon,
    ]
}

/// The display name of a widget kind.
pub open spec fn kind_name(t: WidgetType) -> Seq<char> {
    match t {
        WidgetType::Container => "Container"@,
        WidgetType::Label => "Label"@,
        WidgetType::Button => "Button"@,
        WidgetType::TextInput => "TextInput"@,
        WidgetType::Checkbox => "Checkbox"@,
        WidgetType::Slider => "Slider"@,
        WidgetType::Spacer => "Spacer"@,
        WidgetType::Icon => "Icon"@,
    }
}

impl WidgetType {
    /// All widget kinds, each once, in palette order.
    pub fn all() -> (v: Vec<WidgetType>)
        ensures
            v@ == palette(),
    {
        let v = vec![
            WidgetType::Container,
            WidgetType::Label,
            WidgetType::Button,
            WidgetType::TextInput,
            WidgetType::Checkbox,
            WidgetType::Slider,
            WidgetType::Spacer,
            WidgetType::Icon,
        ];
        assert(v@ =~= palette());
        v
    }

    /// The display name.
    pub fn name(&self) -> (s: &'static str)
        ensures
            s@ == kind_name(*self),
    {
        match self {
            WidgetType::Container => "Container",
            WidgetType::Label => "Label",
            WidgetType::Button => "Button",
            WidgetType::TextInput => "TextInput",
            WidgetType::Checkbox => "Checkbox",
            WidgetType::Slider => "Slider",
            WidgetType::Spacer => "Spacer",
            WidgetType::Icon => "Icon",
        }
    }
}

/// Every widget kind is in the palette exactly once.
pub proof fn lemma_palette_lists_each_kind_once(t: WidgetType)
    ensures
        exists|i: int| 0 <= i < palette().len() && palette()[i] == t,
        forall|i: int, j: int|
            0 <= i < j < palette().len() ==> palette()[i] != palette()[j],
{
    match t {
        WidgetType::Container => assert(palette()[0] == t),
        WidgetType::Label => assert(palette()[1] == t),
        WidgetType::Button => assert(palette()[2] == t),
        WidgetType::TextInput => assert(palette()[3] == t),
        WidgetType::Checkbox => assert(palette()[4] == t),
        WidgetType::Slider => assert(palette()[5] == t),
        WidgetType::Spacer => assert(palette()[6] == t),
        WidgetType::Icon => assert(palette()[7] == t),
    }
}

/// The palette action that adds a widget of kind `t`.
pub open spec fn add_action(t: WidgetType) -> Seq<char> {
    match t {
        WidgetType::Container => "add_container"@,
        WidgetType::Label => "add_label"@,
        WidgetType::Button => "add_button"@,
        WidgetType::TextInput => "add_textinput"@,
        WidgetType::Checkbox => "add_checkbox"@,
        WidgetType::Slider => "add_slider"@,
        WidgetType::Spacer => "add_spacer"@,
        WidgetType::Icon => "add_icon"@,
    }
}

/// What an action of the editor's interface asks for.
#[derive(Debug, Clone, Copy, PartialEq, Eq)]
pub enum DesignerCommand {
    /// Add a widget of this kind.
    Add(WidgetType),
    /// Select the widget at this index.
    Select(usize),
    /// Delete the selected widget.
    DeleteSelected,
    /// Nothing to do.
    Ignore,
}

/// The command of an action: `add_<kind>` adds, `select_<index>` selects,
/// `delete_selected` deletes; anything else is ignored.
pub open spec fn command_of(action: Seq<char>) -> DesignerCommand {
    if exists|i: int| 0 <= i < palette().len() && add_action(#[trigger] palette()[i]) == action {
        DesignerCommand::Add(
            palette()[choose|i: int|
                0 <= i < palette().len() && add_action(#[trigger] palette()[i]) == action],
        )
    } else if action.len() >= 7 && action.subrange(0, 7) == "select_"@ && index_of_text(
        action.subrange(7, action.len() as int),
    ) is Some {
        DesignerCommand::Select(index_of_text(action.subrange(7, action.len() as int))->Some_0 as usize)
    } else if action == "delete_selected"@ {
        DesignerCommand::DeleteSelected
    } else {
        DesignerCommand::Ignore
    }
}

fn add_action_exec(t: WidgetType) -> (s: &'static str)
    ensures
        s@ == add_action(t),
{
    match t {
        WidgetType::Container => "add_container",
        WidgetType::Label => "add_label",
        WidgetType::Button => "add_button",
        WidgetType::TextInput => "add_textinput",
        WidgetType::Checkbox => "add_checkbox",
        WidgetType::Slider => "add_slider",
        WidgetType::Spacer => "add_spacer",
        WidgetType::Icon => "add_icon",
    }
}

/// Add actions name different kinds.
proof fn lemma_add_actions_distinct(i: int, j: int)
    requires
        0 <= i < palette().len(),
        0 <= j < palette().len(),
        add_action(palette()[i]) == add_action(palette()[j]),
    ensures
        i == j,
{
    reveal_strlit("add_container");
    reveal_strlit("add_label");
    reveal_strlit("add_button");
    reveal_strlit("add_textinput");
    reveal_strlit("add_checkbox");
    reveal_strlit("add_slider");
    reveal_strlit("add_spacer");
    reveal_strlit("add_icon");
    if i != j {
        let a = add_action(palette()[i]);
        let b = add_action(palette()[j]);
        assert(a.len() != b.len() || a[4] != b[4] || a[5] != b[5] || a[6] != b[6]);
    }
}

/// Reads an action of the editor's interface.
pub fn designer_command(action: &str) -> (c: DesignerCommand)
    ensures
        c == command_of(action@),
{
    let kinds = WidgetType::all();
    let chars = str_to_chars(action);
    let mut k: usize = 0;
    while k < kinds.len()
        invariant
            k <= kinds@.len(),
            kinds@ == palette(),
            chars@ == action@,
            forall|i: int| 0 <= i < k ==> add_action(#[trigger] palette()[i]) != action@,
        decreases kinds@.len() - k,
    {
        if chars_are(&chars, add_action_exec(kinds[k])) {
            proof {
                assert(add_action(palette()[k as int]) == action@);
                let i = choose|i: int|
                    0 <= i < palette().len() && add_action(#[trigger] palette()[i]) == action@;
                lemma_add_actions_distinct(i, k as int);
            }
            return DesignerCommand::Add(kinds[k]);
        }
        k = k + 1;
    }
    proof {
        assert(!exists|i: int| 0 <= i < palette().len() && add_action(#[trigger] palette()[i]) == action@);
    }
    let n = chars.len();
    if n >= 7 && chars[0] == 's' && chars[1] == 'e' && chars[2] == 'l' && chars[3] == 'e'
        && chars[4] == 'c' && chars[5] == 't' && chars[6] == '_' {
        proof {
            reveal_strlit("select_");
            assert(action@.subrange(0, 7) =~= "select_"@);
        }
        let mut rest: Vec<char> = Vec::new();
        let mut j: usize = 7;
        while j < n
            invariant
                7 <= j <= n,
                n == chars@.len(),
                rest@ == chars@.subrange(7, j as int),
            decreases n - j,
        {
            rest.push(chars[j]);
            j = j + 1;
            assert(rest@ =~= chars@.subrange(7, j as int));
        }
        let rest_text = crate::text_util::chars_to_string(&rest);
        match parse_index(rest_text.as_str()) {
            Some(idx) => {
                return DesignerCommand::Select(idx);
            },
            None => {},
        }
    } else {
        proof {
            reveal_strlit("select_");
            if n >= 7 && action@.subrange(0, 7) == "select_"@ {
                assert(action@.subrange(0, 7)[0] == 's');
                assert(action@.subrange(0, 7)[1] == 'e');
                assert(action@.subrange(0, 7)[2] == 'l');
                assert(action@.subrange(0, 7)[3] == 'e');
                assert(action@.subrange(0, 7)[4] == 'c');
                assert(action@.subrange(0, 7)[5] == 't');
                assert(action@.subrange(0, 7)[6] == '_');
            }
        }
    }
    if chars_are(&chars, "delete_selected") {
        DesignerCommand::DeleteSelected
    } else {
        DesignerCommand::Ignore
    }
}

/// The widgets of a design, in order, and the selected one.
#[derive(Debug)]
pub struct DesignList<W> {
    pub children: Vec<W>,
    pub selected: Option<usize>,
}

impl<W> DesignList<W> {
    /// An empty design.
    pub fn new() -> (d: Self)
        ensures
            d.children@.len() == 0,
            d.selected.is_none(),
    {
        DesignList { children: Vec::new(), selected: None }
    }

    /// Adds a widget at the end and selects it.
    pub fn add(&mut self, w: W)
        ensures
            final(self).children@ == old(self).children@.push(w),
            final(self).selected == Some(old(self).children@.len() as usize),
    {
        self.children.push(w);
        self.selected = Some(self.children.len() - 1);
    }

    /// Selects the widget at `index`.
    pub fn select(&mut self, index: usize)
        ensures
            final(self).children@ == old(self).children@,
            final(self).selected == Some(index),
    {
        self.selected = Some(index);
    }

    /// Deletes the widget at `index`, if there is one, and clears the
    /// selection.
    pub fn delete_at(&mut self, index: usize)
        ensures
            index < old(self).children@.len() ==> final(self).children@ == old(self).children@.remove(
                index as int,
            ) && final(self).selected.is_none(),
            index >= old(self).children@.len() ==> final(self).children@ == old(self).children@
                && final(self).selected == old(self).selected,
    {
        if index < self.children.len() {
            let _gone = self.children.remove(index);
            self.selected = None;
        }
    }

    /// Deletes the selected widget; false when none is selected.
    pub fn delete_selected(&mut self) -> (done: bool)
        ensures
            done == old(self).selected.is_some(),
            match old(self).selected {
                Some(i) => if i < old(self).children@.len() {
                    final(self).children@ == old(self).children@.remove(i as int)
                        && final(self).selected.is_none()
                } else {
                    final(self).children@ == old(self).children@ && final(self).selected == old(
                        self,
                    ).selected
                },
                None => final(self).children@ == old(self).children@ && final(self).selected.is_none(),
            },
    {
        match self.selected {
            Some(i) => {
                self.delete_at(i);
                true
            },
            None => false,
        }
    }

    /// The selected widget, if the selection names one.
    pub fn selected_child(&self) -> (w: Option<&W>)
        ensures
            w == match self.selected {
                Some(i) => if i < self.children@.len() {
                    Some(&self.children@[i as int])
                } else {
                    None
                },
                None => None,
            },
    {
        match self.selected {
            Some(i) => {
                if i < self.children.len() {
                    Some(&self.children[i])
                } else {
                    None
                }
            },
            None => None,
        }
    }
}

} // verus!
