//! What a command line asks of the library: a walk along one axis or the
//! scale of a lattice, and the shape in which to show the pitches.
use crate::error::Error;
use crate::lattice::{axis_outcome, is_scale_of, lattice_outcome, Lattice, LatticeDimension};
use crate::pitch::{unison, walk_outcome, Pitch};
use vstd::prelude::*;

verus! {

/// How the pitches are to be shown.
#[derive(Clone, Copy, Debug, PartialEq, Eq, Structural)]
pub enum OutputType {
    Debug,
    Json,
    Table,
}

/// The settings of a command: the axis or the bound of the lattice, the
/// number of steps, and the shape of the output.
#[derive(Clone, Copy, Debug, PartialEq, Eq, Structural)]
pub struct SubOpts {
    pub dimension: i32,
    pub times: usize,
    pub output: OutputType,
}

/// The command: follow the pitches along one axis, or sort the pitches of a
/// lattice into a scale.
#[derive(Clone, Copy, Debug, PartialEq, Eq, Structural)]
pub enum SubCommand {
    /// Follow the pitches down the direction of a lattice branch.
    Walk(SubOpts),
    /// Sort the pitches in ascending order.
    Scale(SubOpts),
}

/// What the command line holds.
#[derive(Clone, Copy, Debug, PartialEq, Eq, Structural)]
pub struct Options {
    pub subcmd: SubCommand,
}

impl SubCommand {
    /// The settings of the command.
    pub open spec fn settings(&self) -> SubOpts {
        match *self {
            SubCommand::Walk(args) => args,
            SubCommand::Scale(args) => args,
        }
    }

    /// The settings of the command.
    pub fn options(&self) -> (args: SubOpts)
        ensures
            args == self.settings(),
    {
        match *self {
            SubCommand::Walk(args) => args,
            SubCommand::Scale(args) => args,
        }
    }

    /// The pitches that the command asks for. A walk gives the first `times`
    /// pitches of the axis whose step is `dimension / 1`, the unison not
    /// among them. A scale gives the pitches of the lattice of the primes up
    /// to `dimension`, `times` steps along each axis, in ascending order and
    /// each once.
    pub fn pitches(&self) -> (r: Result<Vec<Pitch>, Error>)
        ensures
            match *self {
                SubCommand::Walk(args) => match axis_outcome(
                    args.dimension as int,
                    1,
                    args.times as nat,
                ) {
                    Ok(pitches) => r matches Ok(v) && v@ == pitches,
                    Err(e) => r matches Err(x) && x == e,
                },
                SubCommand::Scale(args) => match lattice_outcome(
                    args.dimension as int,
                    args.times as nat,
                ) {
                    Ok(pitches) => r matches Ok(v) && is_scale_of(v@, pitches),
                    Err(e) => r matches Err(x) && x == e,
                },
            },
    {
        match *self {
            SubCommand::Walk(args) => {
                let mut lattice_dimension = match LatticeDimension::new(args.dimension) {
                    Ok(walk) => walk,
                    Err(e) => {
                        return Err(e);
                    },
                };
                let ghost generator = lattice_dimension.connector;
                match lattice_dimension.take(args.times) {
                    Ok(pitches) => {
                        proof {
                            let expected = Seq::new(
                                args.times as nat,
                                |i: int| walk_outcome(generator, unison(), (i + 1) as nat).unwrap(),
                            );
                            assert(pitches@ =~= expected);
                        }
                        Ok(pitches)
                    },
                    Err(e) => Err(e),
                }
            },
            SubCommand::Scale(args) => {
                match Lattice::new(args.dimension, args.times) {
                    Ok(lattice) => Ok(lattice.scale().pitches),
                    Err(e) => Err(e),
                }
            },
        }
    }
}

} // verus!
