//! The formats a document can be read from and written to.

use crate::text::{eq_ignore_ascii_case, same_ignoring_case};
use vstd::prelude::*;
use vstd::std_specs::convert::FromSpecImpl;
use vstd::string::StringExecFns;

verus! {

/// A serialization format.
#[derive(Clone, Copy, Debug, PartialEq, Eq, Structural)]
pub enum Format {
    Cbor,
    Hjson,
    Json,
    Json5,
    MessagePack,
    Ron,
    Toml,
    Yaml,
}

impl Format {
    /// The name under which the format is shown.
    pub open spec fn spec_name(self) -> Seq<char> {
        match self {
            Format::Cbor => "CBOR"@,
            Format::Hjson => "Hjson"@,
            Format::Json => "JSON"@,
            Format::Json5 => "JSON5"@,
            Format::MessagePack => "MessagePack"@,
            Format::Ron => "RON"@,
            Format::Toml => "TOML"@,
            Format::Yaml => "YAML"@,
        }
    }

    /// The format that a text names. A format is named by its name, and
    /// MessagePack and YAML by `msgpack` and `yml` too; the case of the
    /// letters does not count.
    pub open spec fn spec_parse(text: Seq<char>) -> Option<Format> {
        if same_ignoring_case(text, "CBOR"@) {
            Some(Format::Cbor)
        } else if same_ignoring_case(text, "Hjson"@) {
            Some(Format::Hjson)
        } else if same_ignoring_case(text, "JSON"@) {
            Some(Format::Json)
        } else if same_ignoring_case(text, "JSON5"@) {
            Some(Format::Json5)
        } else if same_ignoring_case(text, "msgpack"@) || same_ignoring_case(
            text,
            "MessagePack"@,
        ) {
            Some(Format::MessagePack)
        } else if same_ignoring_case(text, "RON"@) {
            Some(Format::Ron)
        } else if same_ignoring_case(text, "TOML"@) {
            Some(Format::Toml)
        } else if same_ignoring_case(text, "yml"@) || same_ignoring_case(text, "YAML"@) {
            Some(Format::Yaml)
        } else {
            None
        }
    }

    /// The format as one to write to, where documents can be written to it.
    pub open spec fn spec_as_output(self) -> Option<OutputFormat> {
        match self {
            Format::Cbor => Some(OutputFormat::Cbor),
            Format::Json => Some(OutputFormat::Json),
            Format::MessagePack => Some(OutputFormat::MessagePack),
            Format::Toml => Some(OutputFormat::Toml),
            Format::Yaml => Some(OutputFormat::Yaml),
            _ => None,
        }
    }

    /// Documents of the format are text, and not bytes of any kind.
    pub open spec fn spec_is_text(self) -> bool {
        !(self is Cbor || self is MessagePack)
    }

    /// All formats, in the order in which they are listed.
    pub open spec fn spec_all() -> Seq<Format> {
        seq![
            Format::Cbor,
            Format::Hjson,
            Format::Json,
            Format::Json5,
            Format::MessagePack,
            Format::Ron,
            Format::Toml,
            Format::Yaml,
        ]
    }

    /// The formats that documents can be written to, in the order in which
    /// they are listed.
    pub open spec fn spec_outputs() -> Seq<Format> {
        seq![Format::Cbor, Format::Json, Format::MessagePack, Format::Toml, Format::Yaml]
    }

    /// The name under which the format is shown.
    pub fn name(self) -> (r: &'static str)
        ensures
            r@ == self.spec_name(),
    {
        match self {
            Format::Cbor => "CBOR",
            Format::Hjson => "Hjson",
            Format::Json => "JSON",
            Format::Json5 => "JSON5",
            Format::MessagePack => "MessagePack",
            Format::Ron => "RON",
            Format::Toml => "TOML",
            Format::Yaml => "YAML",
        }
    }

    /// The format that a text names, such as the extension of a file's name.
    pub fn parse(text: &str) -> (r: Option<Format>)
        ensures
            r == Format::spec_parse(text@),
    {
        if eq_ignore_ascii_case(text, "CBOR") {
            Some(Format::Cbor)
        } else if eq_ignore_ascii_case(text, "Hjson") {
            Some(Format::Hjson)
        } else if eq_ignore_ascii_case(text, "JSON") {
            Some(Format::Json)
        } else if eq_ignore_ascii_case(text, "JSON5") {
            Some(Format::Json5)
        } else if eq_ignore_ascii_case(text, "msgpack") || eq_ignore_ascii_case(
            text,
            "MessagePack",
        ) {
            Some(Format::MessagePack)
        } else if eq_ignore_ascii_case(text, "RON") {
            Some(Format::Ron)
        } else if eq_ignore_ascii_case(text, "TOML") {
            Some(Format::Toml)
        } else if eq_ignore_ascii_case(text, "yml") || eq_ignore_ascii_case(text, "YAML") {
            Some(Format::Yaml)
        } else {
            None
        }
    }

    /// The format as one to write to, where documents can be written to it.
    #[verifier::when_used_as_spec(spec_as_output)]
    pub fn as_output(self) -> (r: Option<OutputFormat>)
        ensures
            r == self.spec_as_output(),
    {
        match self {
            Format::Cbor => Some(OutputFormat::Cbor),
            Format::Json => Some(OutputFormat::Json),
            Format::MessagePack => Some(OutputFormat::MessagePack),
            Format::Toml => Some(OutputFormat::Toml),
            Format::Yaml => Some(OutputFormat::Yaml),
            _ => None,
        }
    }

    /// Whether documents of the format are text.
    #[verifier::when_used_as_spec(spec_is_text)]
    pub fn is_text(self) -> (r: bool)
        ensures
            r == self.spec_is_text(),
    {
        match self {
            Format::Cbor => false,
            Format::MessagePack => false,
            _ => true,
        }
    }

    /// All formats, in the order in which they are listed.
    pub fn all() -> (r: Vec<Format>)
        ensures
            r@ == Format::spec_all(),
    {
        let mut formats: Vec<Format> = Vec::new();
        formats.push(Format::Cbor);
        formats.push(Format::Hjson);
        formats.push(Format::Json);
        formats.push(Format::Json5);
        formats.push(Format::MessagePack);
        formats.push(Format::Ron);
        formats.push(Format::Toml);
        formats.push(Format::Yaml);
        assert(formats@ =~= Format::spec_all());
        formats
    }

    /// The formats that documents can be written to, in the order in which
    /// they are listed.
    pub fn outputs() -> (r: Vec<Format>)
        ensures
            r@ == Format::spec_outputs(),
            forall|format: Format| r@.contains(format) <==> format.spec_as_output() is Some,
    {
        let mut formats: Vec<Format> = Vec::new();
        formats.push(Format::Cbor);
        formats.push(Format::Json);
        formats.push(Format::MessagePack);
        formats.push(Format::Toml);
        formats.push(Format::Yaml);
        assert(formats@ =~= Format::spec_outputs());
        assert forall|format: Format| formats@.contains(format) <==> format.spec_as_output()
            is Some by {
            assert(formats@[0] == Format::Cbor && formats@[1] == Format::Json && formats@[2]
                == Format::MessagePack && formats@[3] == Format::Toml && formats@[4]
                == Format::Yaml);
        }
        formats
    }

    /// The source format of a conversion: the one that was asked for, and
    /// else the one that the extension of the input file's name, if it has
    /// one, names.
    pub fn source(asked: Option<InputFormat>, extension: Option<&str>) -> (r: Option<Format>)
        ensures
            r == (match (asked, extension) {
                (Some(format), _) => Some(format.format()),
                (None, Some(text)) => Format::spec_parse(text@),
                (None, None) => None,
            }),
    {
        match asked {
            Some(format) => Some(Format::from(format)),
            None => match extension {
                Some(text) => Format::parse(text),
                None => None,
            },
        }
    }

    /// The target format of a conversion: the one that was asked for, and
    /// else the one that the extension of the output file's name, if it has
    /// one, names, where documents can be written to it.
    pub fn target(asked: Option<OutputFormat>, extension: Option<&str>) -> (r: Option<
        OutputFormat,
    >)
        ensures
            r == (match (asked, extension) {
                (Some(format), _) => Some(format),
                (None, Some(text)) => match Format::spec_parse(text@) {
                    Some(format) => format.spec_as_output(),
                    None => None,
                },
                (None, None) => None,
            }),
    {
        match asked {
            Some(format) => Some(format),
            None => match extension {
                Some(text) => match Format::parse(text) {
                    Some(format) => format.as_output(),
                    None => None,
                },
                None => None,
            },
        }
    }
}

/// A format that a document can be read from: every format.
#[derive(Clone, Copy, Debug, PartialEq, Eq, Structural)]
pub enum InputFormat {
    Cbor,
    Hjson,
    Json,
    Json5,
    MessagePack,
    Ron,
    Toml,
    Yaml,
}

/// A format that a document can be written to.
#[derive(Clone, Copy, Debug, PartialEq, Eq, Structural)]
pub enum OutputFormat {
    Cbor,
    Json,
    MessagePack,
    Toml,
    Yaml,
}

impl InputFormat {
    /// The format itself.
    pub open spec fn format(self) -> Format {
        match self {
            InputFormat::Cbor => Format::Cbor,
            InputFormat::Hjson => Format::Hjson,
            InputFormat::Json => Format::Json,
            InputFormat::Json5 => Format::Json5,
            InputFormat::MessagePack => Format::MessagePack,
            InputFormat::Ron => Format::Ron,
            InputFormat::Toml => Format::Toml,
            InputFormat::Yaml => Format::Yaml,
        }
    }
}

impl OutputFormat {
    /// The format itself.
    pub open spec fn format(self) -> Format {
        match self {
            OutputFormat::Cbor => Format::Cbor,
            OutputFormat::Json => Format::Json,
            OutputFormat::MessagePack => Format::MessagePack,
            OutputFormat::Toml => Format::Toml,
            OutputFormat::Yaml => Format::Yaml,
        }
    }

    /// The text of a document as it is handed out: after a JSON document
    /// stands a line feed, and any other text is left as it is.
    pub fn finish(self, text: String) -> (r: String)
        ensures
            r@ == (if self is Json {
                text@ + "\n"@
            } else {
                text@
            }),
    {
        match self {
            OutputFormat::Json => text.concat("\n"),
            _ => text,
        }
    }

    /// Whether the format has a pretty-printed form beside the plain one.
    pub fn has_pretty_form(self) -> (r: bool)
        ensures
            r == (self is Json || self is Toml),
    {
        match self {
            OutputFormat::Json => true,
            OutputFormat::Toml => true,
            _ => false,
        }
    }

    /// A format that can be written to is itself when it is taken as a
    /// format and then as one to write to.
    pub proof fn lemma_as_output(self)
        ensures
            self.format().spec_as_output() == Some(self),
    {
    }
}

impl From<InputFormat> for Format {
    fn from(value: InputFormat) -> (r: Format) {
        match value {
            InputFormat::Cbor => Format::Cbor,
            InputFormat::Hjson => Format::Hjson,
            InputFormat::Json => Format::Json,
            InputFormat::Json5 => Format::Json5,
            InputFormat::MessagePack => Format::MessagePack,
            InputFormat::Ron => Format::Ron,
            InputFormat::Toml => Format::Toml,
            InputFormat::Yaml => Format::Yaml,
        }
    }
}

impl FromSpecImpl<InputFormat> for Format {
    open spec fn obeys_from_spec() -> bool {
        true
    }

    open spec fn from_spec(value: InputFormat) -> Format {
        value.format()
    }
}

impl From<OutputFormat> for Format {
    fn from(value: OutputFormat) -> (r: Format) {
        match value {
            OutputFormat::Cbor => Format::Cbor,
            OutputFormat::Json => Format::Json,
            OutputFormat::MessagePack => Format::MessagePack,
            OutputFormat::Toml => Format::Toml,
            OutputFormat::Yaml => Format::Yaml,
        }
    }
}

impl FromSpecImpl<OutputFormat> for Format {
    open spec fn obeys_from_spec() -> bool {
        true
    }

    open spec fn from_spec(value: OutputFormat) -> Format {
        value.format()
    }
}

/// When output is coloured.
#[derive(Clone, Copy, Debug, PartialEq, Eq, Structural)]
pub enum Color {
    Auto,
    Always,
    Never,
}

impl Default for Color {
    fn default() -> (r: Color)
        ensures
            r == Color::Auto,
    {
        Color::Auto
    }
}

} // verus!
