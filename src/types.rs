use vstd::prelude::*;

verus! {

/// One of the five colors that a key can show.
#[derive(Clone, Copy, Debug, PartialEq, Eq, Structural)]
pub enum Color {
    Green,
    Blue,
    Red,
    Yellow,
    Orange,
}

/// The canonical lowercase name of a color, used both to read and to write it.
pub open spec fn color_name(c: Color) -> Seq<char> {
    match c {
        Color::Green => seq!['g', 'r', 'e', 'e', 'n'],
        Color::Blue => seq!['b', 'l', 'u', 'e'],
        Color::Red => seq!['r', 'e', 'd'],
        Color::Yellow => seq!['y', 'e', 'l', 'l', 'o', 'w'],
        Color::Orange => seq!['o', 'r', 'a', 'n', 'g', 'e'],
    }
}

impl Color {
    /// The canonical name of this color.
    pub fn name(&self) -> (r: &'static str)
        ensures
            r@ == color_name(*self),
    {
        match self {
            Color::Green => {
                proof {
                    reveal_strlit("green");
                }
                "green"
            },
            Color::Blue => {
                proof {
                    reveal_strlit("blue");
                }
                "blue"
            },
            Color::Red => {
                proof {
                    reveal_strlit("red");
                }
                "red"
            },
            Color::Yellow => {
                proof {
                    reveal_strlit("yellow");
                }
                "yellow"
            },
            Color::Orange => {
                proof {
                    reveal_strlit("orange");
                }
                "orange"
            },
        }
    }
}

/// The three kinds of lighting effect.
#[derive(Clone, Copy, Debug, PartialEq, Eq, Structural)]
pub enum EffectKind {
    Static,
    Wave,
    Disco,
}

/// The word that names an effect kind on an effect line.
pub open spec fn effect_name(k: EffectKind) -> Seq<char> {
    match k {
        EffectKind::Static => seq!['s', 't', 'a', 't', 'i', 'c'],
        EffectKind::Wave => seq!['w', 'a', 'v', 'e'],
        EffectKind::Disco => seq!['d', 'i', 's', 'c', 'o'],
    }
}

/// What a key shows, as a mathematical value.
pub enum EffectModel {
    Static(Color),
    Wave(Seq<Color>),
    Disco(Color, Color, Color),
}

/// A key code together with the effect declared for it.
pub type Entry = (Seq<char>, EffectModel);

/// The lighting effect declared for one key.
#[derive(Clone, Debug, PartialEq, Eq)]
pub enum KeyConfig {
    Static { code: String, color: Color },
    Wave { code: String, colors: Vec<Color> },
    Disco { code: String, color1: Color, color2: Color, color3: Color },
}

impl View for KeyConfig {
    type V = Entry;

    open spec fn view(&self) -> Entry {
        match self {
            KeyConfig::Static { code, color } => (code@, EffectModel::Static(*color)),
            KeyConfig::Wave { code, colors } => (code@, EffectModel::Wave(colors@)),
            KeyConfig::Disco { code, color1, color2, color3 } => (
                code@,
                EffectModel::Disco(*color1, *color2, *color3),
            ),
        }
    }
}

impl KeyConfig {
    /// The key code this effect is declared for.
    pub fn code(&self) -> (r: &String)
        ensures
            r@ == self@.0,
    {
        match self {
            KeyConfig::Static { code, .. } => code,
            KeyConfig::Wave { code, .. } => code,
            KeyConfig::Disco { code, .. } => code,
        }
    }
}

/// Why a configuration was rejected.
#[derive(Clone, Debug, PartialEq, Eq)]
pub enum ParseError {
    /// The number of lines is not a multiple of three.
    MalformedInput,
    /// A token of a keys line is not made of letters alone.
    InvalidKey(String),
    /// An effect line does not hold exactly one token.
    InvalidEffectArity,
    /// An effect line names no known effect.
    UnknownEffect(String),
    /// A token of a colors line names no known color.
    InvalidColor(String),
    /// The number of colors does not suit the effect (static needs one, disco three).
    InvalidColorCount(EffectKind),
}

/// A rejection as a mathematical value.
pub enum ErrorModel {
    MalformedInput,
    InvalidKey(Seq<char>),
    InvalidEffectArity,
    UnknownEffect(Seq<char>),
    InvalidColor(Seq<char>),
    InvalidColorCount(EffectKind),
}

impl View for ParseError {
    type V = ErrorModel;

    open spec fn view(&self) -> ErrorModel {
        match self {
            ParseError::MalformedInput => ErrorModel::MalformedInput,
            ParseError::InvalidKey(t) => ErrorModel::InvalidKey(t@),
            ParseError::InvalidEffectArity => ErrorModel::InvalidEffectArity,
            ParseError::UnknownEffect(t) => ErrorModel::UnknownEffect(t@),
            ParseError::InvalidColor(t) => ErrorModel::InvalidColor(t@),
            ParseError::InvalidColorCount(k) => ErrorModel::InvalidColorCount(*k),
        }
    }
}

} // verus!

verus! {

impl EffectKind {
    /// The word that names this effect kind.
    pub fn name(&self) -> (r: &'static str)
        ensures
            r@ == effect_name(*self),
    {
        match self {
            EffectKind::Static => {
                proof {
                    reveal_strlit("static");
                }
                "static"
            },
            EffectKind::Wave => {
                proof {
                    reveal_strlit("wave");
                }
                "wave"
            },
            EffectKind::Disco => {
                proof {
                    reveal_strlit("disco");
                }
                "disco"
            },
        }
    }
}

} // verus!
