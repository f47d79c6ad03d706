//! Configuration data: a logo choice and an ordered list of components.

use vstd::prelude::*;

verus! {

/// Mathematical value of a [`Component`].
pub struct ComponentV {
    pub name: Seq<char>,
    pub icon: Option<Seq<char>>,
    pub content: Seq<char>,
}

/// Mathematical value of a [`Logo`].
pub enum LogoV {
    Os,
    Custom(Seq<Seq<char>>),
    Disabled,
}

/// Mathematical value of a [`Config`].
pub struct ConfigV {
    pub logo: LogoV,
    pub components: Seq<ComponentV>,
    pub newline: bool,
    pub spacing: nat,
    pub oneline: bool,
}

/// One named item of the output: a name, an optional icon put before the
/// name, and a text body that may hold color and placeholder markup.
#[derive(Debug, Clone, PartialEq)]
pub struct Component {
    pub name: String,
    pub icon: Option<String>,
    pub content: String,
}

/// The logo put at the left of the output: a premade one (not implemented),
/// user-supplied lines, or none.
#[derive(Debug, Clone, PartialEq)]
pub enum Logo {
    Os,
    Custom(Vec<String>),
    Disabled,
}

/// A full configuration, consumed by [`crate::render::render`].
#[derive(Debug, Clone, PartialEq)]
pub struct Config {
    pub logo: Logo,
    pub components: Vec<Component>,
    /// blank separator line after each component's block
    pub newline: bool,
    /// spaces between the logo column and the component column
    pub spacing: usize,
    /// name and content on one output row instead of two
    pub oneline: bool,
}

impl View for Component {
    type V = ComponentV;

    open spec fn view(&self) -> ComponentV {
        ComponentV {
            name: self.name@,
            icon: match self.icon {
                Option::Some(s) => Option::Some(s@),
                Option::None => Option::None,
            },
            content: self.content@,
        }
    }
}

impl View for Logo {
    type V = LogoV;

    open spec fn view(&self) -> LogoV {
        match self {
            Logo::Os => LogoV::Os,
            Logo::Custom(lines) => LogoV::Custom(lines@.map_values(|l: String| l@)),
            Logo::Disabled => LogoV::Disabled,
        }
    }
}

impl View for Config {
    type V = ConfigV;

    open spec fn view(&self) -> ConfigV {
        ConfigV {
            logo: self.logo@,
            components: self.components@.map_values(|c: Component| c@),
            newline: self.newline,
            spacing: self.spacing as nat,
            oneline: self.oneline,
        }
    }
}

impl Config {
    /// The starting configuration handed to a user script: no logo, one
    /// blank component, a separator line, one space of spacing, one row
    /// per component.
    pub fn new() -> (r: Self)
        ensures
            r@.logo is Disabled,
            r@.components.len() == 1,
            r@.components[0].name == Seq::<char>::empty(),
            r@.components[0].icon is None,
            r@.components[0].content == Seq::<char>::empty(),
            r@.newline == true,
            r@.spacing == 1,
            r@.oneline == true,
    {
        let r = Self {
            logo: Logo::Disabled,
            components: vec![
                Component { name: String::new(), icon: None, content: String::new() },
            ],
            newline: true,
            spacing: 1,
            oneline: true,
        };
        proof {
            assert(r@.components =~= seq![r.components@[0]@]);
        }
        r
    }
}

} // verus!
