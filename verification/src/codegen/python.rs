//! Utilities for generating Python code.
use crate::codegen::{spaces, CodeGenerator, Scope};
use vstd::prelude::*;

verus! {

/// Helper for generating Python code.
pub struct PythonCodeGenerator {
    /// The underlying generic code generator.
    gen: CodeGenerator,
}

impl PythonCodeGenerator {
    /// The text that was generated so far.
    pub closed spec fn text(&self) -> Seq<char> {
        self.gen.text()
    }

    /// The current indent, in number of spaces.
    pub closed spec fn level(&self) -> nat {
        self.gen.level()
    }

    /// The scopes that are open, the innermost last.
    pub closed spec fn scopes(&self) -> Seq<Scope> {
        self.gen.scopes()
    }

    /// The number of scopes that are open.
    pub open spec fn depth(&self) -> nat {
        self.scopes().len()
    }

    /// A generator that has generated nothing yet.
    pub fn new() -> (generator: PythonCodeGenerator)
        ensures
            generator.text() == Seq::<char>::empty(),
            generator.level() == 0,
            generator.scopes() == Seq::<Scope>::empty(),
    {
        Self { gen: CodeGenerator::new() }
    }

    /// Append a string verbatim to the output.
    pub fn write(&mut self, s: &str)
        ensures
            final(self).text() == old(self).text() + s@,
            final(self).level() == old(self).level(),
            final(self).scopes() == old(self).scopes(),
    {
        self.gen.write(s)
    }

    /// Begin a new scope, which is indented by four spaces more.
    pub fn open_scope(&mut self)
        requires
            old(self).level() + 4 <= u32::MAX,
        ensures
            final(self).text() == old(self).text(),
            final(self).level() == old(self).level() + 4,
            final(self).scopes().len() == old(self).scopes().len() + 1,
            final(self).scopes().drop_last() == old(self).scopes(),
            final(self).scopes().last().names() == Seq::<Seq<char>>::empty(),
    {
        self.gen.open_scope()
    }

    /// Close the innermost scope.
    pub fn close_scope(&mut self)
        requires
            old(self).depth() > 0,
            old(self).level() >= 4,
        ensures
            final(self).text() == old(self).text(),
            final(self).level() == old(self).level() - 4,
            final(self).scopes() == old(self).scopes().drop_last(),
    {
        self.gen.close_scope()
    }

    /// Indent by four spaces more, without opening a scope.
    pub fn increase_indent(&mut self)
        requires
            old(self).level() + 4 <= u32::MAX,
        ensures
            final(self).text() == old(self).text(),
            final(self).level() == old(self).level() + 4,
            final(self).scopes() == old(self).scopes(),
    {
        let indent: u32 = self.gen.indent();
        self.gen.set_indent(indent + 4);
    }

    /// Indent by four spaces less, without closing a scope.
    pub fn decrease_indent(&mut self)
        requires
            old(self).level() >= 4,
        ensures
            final(self).text() == old(self).text(),
            final(self).level() == old(self).level() - 4,
            final(self).scopes() == old(self).scopes(),
    {
        let indent: u32 = self.gen.indent();
        self.gen.set_indent(indent - 4);
    }

    /// Write as many spaces as the current indent.
    pub fn write_indent(&mut self)
        requires
            old(self).level() <= 32,
        ensures
            final(self).text() == old(self).text() + spaces(old(self).level()),
            final(self).level() == old(self).level(),
            final(self).scopes() == old(self).scopes(),
    {
        self.gen.write_indent()
    }

    /// Hand over the text that was generated.
    pub fn into_text(self) -> (text: String)
        ensures
            text@ == self.text(),
    {
        self.gen.into_text()
    }
}

} // verus!
