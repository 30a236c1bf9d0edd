//! The command template: a program name, argument templates, and a
//! substitution tag.  Construction validates the trailing command tokens;
//! rendering replaces every occurrence of the tag in each argument
//! template with a batch's payload.  Spawning the rendered command is
//! left to the surrounding program.

use vstd::prelude::*;
use crate::text::copy_bytes;
use crate::text::replace_all;
use crate::text::replaced;

verus! {

/// Why a command template could not be built from the trailing tokens.
#[derive(Debug, PartialEq, Eq, Structural)]
pub enum ExecutorError {
    /// The first token, the program name, is empty.
    Invalid,
    /// No trailing tokens were supplied at all.
    Missing,
}

/// Every argument template with each occurrence of the tag replaced by
/// the payload.
pub open spec fn rendered(args: Seq<Seq<u8>>, tag: Seq<u8>, payload: Seq<u8>) -> Seq<Seq<u8>> {
    args.map_values(|a: Seq<u8>| replaced(a, tag, payload))
}

/// The command template.
pub struct Executor {
    pub program_name: Vec<u8>,
    pub arguments: Vec<Vec<u8>>,
    pub tag: Vec<u8>,
}

impl Executor {
    /// The program name is never empty.
    pub open spec fn wf(&self) -> bool {
        self.program_name@.len() >= 1
    }

    /// Builds a command template from the trailing command tokens: the
    /// first token becomes the program name (and is removed from
    /// `command`), the rest the argument templates.  Fails with
    /// `Missing` when no token was supplied and with `Invalid` when the
    /// program name is empty.
    pub fn from_command(command: &mut Vec<Vec<u8>>, tag: Vec<u8>) -> (r: Result<
        Executor,
        ExecutorError,
    >)
        ensures
            old(command)@.len() == 0 ==> (r matches Err(ExecutorError::Missing) && *final(command)
                == *old(command)),
            old(command)@.len() >= 1 ==> final(command).deep_view() == old(
                command,
            ).deep_view().skip(1),
            old(command)@.len() >= 1 && old(command).deep_view()[0].len() == 0 ==> r matches Err(
                ExecutorError::Invalid,
            ),
            old(command)@.len() >= 1 && old(command).deep_view()[0].len() >= 1 ==> (r matches Ok(e)
                && e.wf() && e.program_name@ == old(command).deep_view()[0]
                && e.arguments.deep_view() == old(command).deep_view().skip(1) && e.tag@ == tag@),
    {
        if command.len() == 0 {
            return Err(ExecutorError::Missing);
        }
        let program_name = command.remove(0);
        proof {
            assert(command.deep_view() =~~= old(command).deep_view().skip(1));
        }
        if program_name.len() == 0 {
            return Err(ExecutorError::Invalid);
        }
        let mut arguments: Vec<Vec<u8>> = Vec::new();
        proof {
            assert(arguments.deep_view() =~~= command.deep_view().take(0));
        }
        let mut i: usize = 0;
        while i < command.len()
            invariant
                i <= command@.len(),
                arguments@.len() == i,
                command.deep_view() == old(command).deep_view().skip(1),
                arguments.deep_view() == command.deep_view().take(i as int),
            decreases command@.len() - i,
        {
            let ghost dv_cmd = command.deep_view();
            let ghost args0 = arguments@;
            let ghost dv0 = arguments.deep_view();
            let arg = copy_bytes(&command[i]);
            proof {
                assert(arg.deep_view() =~~= dv_cmd[i as int]);
            }
            arguments.push(arg);
            i = i + 1;
            proof {
                assert forall|j: int| 0 <= j < i as int implies arguments.deep_view()[j]
                    == dv_cmd[j] by {
                    assert(arguments.deep_view()[j] == arguments@[j].deep_view());
                    if j < i as int - 1 {
                        assert(arguments@[j] == args0[j]);
                        assert(args0[j].deep_view() == dv0[j]);
                        assert(dv0[j] == dv_cmd.take(i as int - 1)[j]);
                    } else {
                        assert(arguments@[j] == arg);
                    }
                }
                assert(arguments.deep_view() =~= dv_cmd.take(i as int));
            }
        }
        proof {
            assert(command.deep_view().take(command@.len() as int) =~= command.deep_view());
        }
        Ok(Executor { program_name, arguments, tag })
    }

    /// Renders the argument list for one payload: every occurrence of
    /// the tag in every argument template is replaced by the payload; an
    /// argument without the tag passes through unchanged.
    pub fn render(&self, payload: &Vec<u8>) -> (r: Vec<Vec<u8>>)
        ensures
            r.deep_view() == rendered(self.arguments.deep_view(), self.tag@, payload@),
    {
        let mut r: Vec<Vec<u8>> = Vec::new();
        proof {
            assert(r.deep_view() =~~= rendered(
                self.arguments.deep_view(),
                self.tag@,
                payload@,
            ).take(0));
        }
        let mut i: usize = 0;
        while i < self.arguments.len()
            invariant
                i <= self.arguments@.len(),
                r@.len() == i,
                r.deep_view() == rendered(self.arguments.deep_view(), self.tag@, payload@).take(
                    i as int,
                ),
            decreases self.arguments@.len() - i,
        {
            let ghost dv_args = self.arguments.deep_view();
            let ghost goal = rendered(dv_args, self.tag@, payload@);
            let ghost r0 = r@;
            let ghost dvr0 = r.deep_view();
            let out = replace_all(&self.arguments[i], &self.tag, payload);
            proof {
                assert(dv_args[i as int] =~~= self.arguments@[i as int]@);
                assert(out.deep_view() =~~= replaced(dv_args[i as int], self.tag@, payload@));
                assert(goal[i as int] == replaced(dv_args[i as int], self.tag@, payload@));
            }
            r.push(out);
            i = i + 1;
            proof {
                assert forall|j: int| 0 <= j < i as int implies r.deep_view()[j] == goal[j] by {
                    assert(r.deep_view()[j] == r@[j].deep_view());
                    if j < i as int - 1 {
                        assert(r@[j] == r0[j]);
                        assert(r0[j].deep_view() == dvr0[j]);
                        assert(dvr0[j] == goal.take(i as int - 1)[j]);
                    } else {
                        assert(r@[j] == out);
                    }
                }
                assert(r.deep_view() =~= goal.take(i as int));
            }
        }
        proof {
            let ghost goal = rendered(self.arguments.deep_view(), self.tag@, payload@);
            assert(goal.take(goal.len() as int) =~= goal);
        }
        r
    }
}

} // verus!
