//! The declarative description of a composition: the components, the output
//! and how imports are linked to exports.

use crate::module::views;
use vstd::prelude::*;
use vstd::string::StringExecFns;

verus! {

/// How imports are matched with exports.
#[derive(Clone, Copy, Debug, PartialEq, Eq, Structural)]
pub enum LinkStrategy {
    /// Every import is matched by name against the exports of the other
    /// components.
    Auto,
    /// Only the connections that the configuration lists are made.
    Manual,
}

/// An explicit edge: the export `export` of the component `from` satisfies
/// the import `import` of the component `to`.
#[derive(Clone, Debug, PartialEq, Eq)]
pub struct Connection {
    pub from: String,
    pub to: String,
    pub export: String,
    pub import: String,
}

/// The mathematical value of a [`Connection`].
pub struct ConnectionView {
    pub from: Seq<char>,
    pub to: Seq<char>,
    pub export: Seq<char>,
    pub import: Seq<char>,
}

impl View for Connection {
    type V = ConnectionView;

    open spec fn view(&self) -> ConnectionView {
        ConnectionView {
            from: self.from@,
            to: self.to@,
            export: self.export@,
            import: self.import@,
        }
    }
}

/// One input of a composition.
#[derive(Clone, Debug, PartialEq, Eq)]
pub struct ComponentConfig {
    pub name: String,
    pub path: String,
    pub exports: Vec<String>,
    pub imports: Vec<String>,
}

/// The mathematical value of a [`ComponentConfig`].
pub struct ComponentConfigView {
    pub name: Seq<char>,
    pub path: Seq<char>,
    pub exports: Seq<Seq<char>>,
    pub imports: Seq<Seq<char>>,
}

impl View for ComponentConfig {
    type V = ComponentConfigView;

    open spec fn view(&self) -> ComponentConfigView {
        ComponentConfigView {
            name: self.name@,
            path: self.path@,
            exports: views(self.exports@),
            imports: views(self.imports@),
        }
    }
}

/// What is written.
#[derive(Clone, Debug, PartialEq, Eq)]
pub struct OutputConfig {
    pub name: String,
    /// `component` or `module`.
    pub format: String,
}

/// How the inputs are linked.
#[derive(Clone, Debug, PartialEq, Eq)]
pub struct LinkingConfig {
    pub strategy: LinkStrategy,
    pub connections: Vec<Connection>,
}

/// The configuration of one composition run.
#[derive(Clone, Debug, PartialEq, Eq)]
pub struct CompositionConfig {
    pub components: Vec<ComponentConfig>,
    pub output: OutputConfig,
    pub linking: LinkingConfig,
}

/// The mathematical value of a [`CompositionConfig`].
pub struct CompositionConfigView {
    pub components: Seq<ComponentConfigView>,
    pub output_name: Seq<char>,
    pub output_format: Seq<char>,
    pub strategy: LinkStrategy,
    pub connections: Seq<ConnectionView>,
}

impl View for CompositionConfig {
    type V = CompositionConfigView;

    open spec fn view(&self) -> CompositionConfigView {
        CompositionConfigView {
            components: views(self.components@),
            output_name: self.output.name@,
            output_format: self.output.format@,
            strategy: self.linking.strategy,
            connections: views(self.linking.connections@),
        }
    }
}

/// The strategy that a word of a configuration file names.
pub open spec fn strategy_named(text: Seq<char>) -> Option<LinkStrategy> {
    if text == "auto"@ {
        Some(LinkStrategy::Auto)
    } else if text == "manual"@ {
        Some(LinkStrategy::Manual)
    } else {
        None
    }
}

/// Reads a strategy from the word that names it: `auto` or `manual`.
pub fn parse_strategy(text: &str) -> (r: Option<LinkStrategy>)
    ensures
        r == strategy_named(text@),
{
    let word = String::from_str(text);
    if word == String::from_str("auto") {
        Some(LinkStrategy::Auto)
    } else if word == String::from_str("manual") {
        Some(LinkStrategy::Manual)
    } else {
        None
    }
}

/// The word that names a strategy.
pub fn strategy_name(strategy: LinkStrategy) -> (r: &'static str)
    ensures
        strategy_named(r@) == Some(strategy),
{
    proof {
        reveal_strlit("auto");
        reveal_strlit("manual");
        assert("manual"@[0] != "auto"@[0]);
    }
    match strategy {
        LinkStrategy::Auto => "auto",
        LinkStrategy::Manual => "manual",
    }
}

/// The component that stands for an input when no configuration was given:
/// it bears the given name and path and declares neither exports nor imports.
pub fn default_component(name: String, path: String) -> (r: ComponentConfig)
    ensures
        r@ == (ComponentConfigView {
            name: name@,
            path: path@,
            exports: Seq::empty(),
            imports: Seq::empty(),
        }),
{
    let r = ComponentConfig { name, path, exports: Vec::new(), imports: Vec::new() };
    proof {
        assert(r@.exports =~= Seq::<Seq<char>>::empty());
        assert(r@.imports =~= Seq::<Seq<char>>::empty());
    }
    r
}

/// The configuration that is used when none was given: the given components,
/// an output named `composed` in the format `component`, and the automatic
/// strategy without connections.
pub fn default_config(components: Vec<ComponentConfig>) -> (r: CompositionConfig)
    ensures
        r@ == (CompositionConfigView {
            components: views(components@),
            output_name: "composed"@,
            output_format: "component"@,
            strategy: LinkStrategy::Auto,
            connections: Seq::empty(),
        }),
{
    let r = CompositionConfig {
        components,
        output: OutputConfig {
            name: String::from_str("composed"),
            format: String::from_str("component"),
        },
        linking: LinkingConfig { strategy: LinkStrategy::Auto, connections: Vec::new() },
    };
    proof {
        assert(r@.connections =~= Seq::<ConnectionView>::empty());
    }
    r
}

} // verus!
