//! The command surface: where a maze comes from, where it goes, and a
//! builder that pairs the two.

use vstd::prelude::*;

verus! {

/// Where a maze comes from.
pub enum Source {
    /// Read a maze back from a maze file.
    Mazefile { input: String },
    /// Build a masked grid from an image whose dark pixels are cells.
    FromInputMask { input: String },
    /// Build a full rectangular grid.
    Unmasked { width: usize, height: usize },
    /// Build a radial grid.
    UnmaskedRadial { starting_branch_count: usize, ring_count: usize },
}

/// Where a finished maze goes.
pub enum Destination {
    /// Serialize to a maze file.
    Mazefile { output: String },
    /// Render to an image.
    Image { output: String, image_width: usize, padding: usize },
}

/// A complete command: one source, one destination.
pub struct Command {
    pub destination: Destination,
    pub source: Source,
}

/// Collects a source and a destination before building a [`Command`].
pub struct CommandBuilder {
    pub b_destination: Option<Destination>,
    pub b_source: Option<Source>,
}

impl Source {
    pub fn mazefile(input: String) -> (r: Self)
        ensures
            r == (Source::Mazefile { input }),
    {
        Self::Mazefile { input }
    }

    pub fn input_mask(input: String) -> (r: Self)
        ensures
            r == (Source::FromInputMask { input }),
    {
        Self::FromInputMask { input }
    }

    pub fn unmasked(width: usize, height: usize) -> (r: Self)
        ensures
            r == (Source::Unmasked { width, height }),
    {
        Self::Unmasked { width, height }
    }

    pub fn unmasked_radial(starting_branch_count: usize, rings: usize) -> (r: Self)
        ensures
            r == (Source::UnmaskedRadial { starting_branch_count, ring_count: rings }),
    {
        Self::UnmaskedRadial { starting_branch_count, ring_count: rings }
    }
}

impl Destination {
    pub fn image(image_width: usize, padding: usize, output: String) -> (r: Self)
        ensures
            r == (Destination::Image { image_width, padding, output }),
    {
        Self::Image { image_width, padding, output }
    }

    pub fn mazefile(output: String) -> (r: Self)
        ensures
            r == (Destination::Mazefile { output }),
    {
        Self::Mazefile { output }
    }
}

impl CommandBuilder {
    pub fn new() -> (r: Self)
        ensures
            r.b_destination is None,
            r.b_source is None,
    {
        CommandBuilder { b_destination: None, b_source: None }
    }

    pub fn destination(self, destination: Destination) -> (r: Self)
        ensures
            r.b_destination == Some(destination),
            r.b_source == self.b_source,
    {
        CommandBuilder { b_destination: Some(destination), ..self }
    }

    pub fn source(self, source: Source) -> (r: Self)
        ensures
            r.b_source == Some(source),
            r.b_destination == self.b_destination,
    {
        CommandBuilder { b_source: Some(source), ..self }
    }

    /// Builds the command; yields nothing until both a source and a
    /// destination have been given.
    pub fn build(self) -> (r: Option<Command>)
        ensures
            r is Some <==> (self.b_destination is Some && self.b_source is Some),
            r matches Some(command) ==> Some(command.destination) == self.b_destination
                && Some(command.source) == self.b_source,
    {
        match (self.b_destination, self.b_source) {
            (Some(destination), Some(source)) => Some(Command { destination, source }),
            _ => None,
        }
    }
}

} // verus!
