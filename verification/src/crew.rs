//! The memory slots of a crew and their reset command.

use std::collections::HashMap;

use vstd::prelude::*;

verus! {

/// The memories and execution record that a crew keeps between runs.
#[derive(Debug, Clone)]
pub struct CrewMemory {
    /// Short-term memory configuration.
    pub short_term_memory: Option<HashMap<String, serde_json::Value>>,
    /// Long-term memory configuration.
    pub long_term_memory: Option<HashMap<String, serde_json::Value>>,
    /// Entity memory configuration.
    pub entity_memory: Option<HashMap<String, serde_json::Value>>,
    /// External memory configuration.
    pub external_memory: Option<HashMap<String, serde_json::Value>>,
    /// Knowledge of the crew.
    pub knowledge: Option<HashMap<String, serde_json::Value>>,
    /// Execution logs of the tasks run so far.
    pub execution_logs: Vec<HashMap<String, serde_json::Value>>,
}

/// The commands that `reset_memories` accepts.
pub open spec fn memory_command(c: Seq<char>) -> bool {
    ||| c == "long"@
    ||| c == "short"@
    ||| c == "entity"@
    ||| c == "knowledge"@
    ||| c == "agent_knowledge"@
    ||| c == "kickoff_outputs"@
    ||| c == "all"@
    ||| c == "external"@
}

/// The error for a command that `reset_memories` does not know.
pub open spec fn invalid_memory_command() -> Seq<char> {
    "Invalid command type. Must be one of: long, short, entity, knowledge, agent_knowledge, kickoff_outputs, all, external"@
}

impl CrewMemory {
    /// Reset the memory named by `command_type`: "short", "long",
    /// "entity", "external", "knowledge" or "agent_knowledge" (both the
    /// knowledge), "kickoff_outputs" (the execution logs), or "all" of them.
    /// Any other command is refused and changes nothing.
    pub fn reset_memories(&mut self, command_type: &str) -> (r: Result<(), String>)
        ensures
            r is Ok <==> memory_command(command_type@),
            r matches Err(e) ==> e@ == invalid_memory_command() && *final(self) == *old(self),
            r is Ok ==> final(self).short_term_memory == if command_type@ == "short"@ || command_type@ == "all"@ {
                None
            } else {
                old(self).short_term_memory
            },
            r is Ok ==> final(self).long_term_memory == if command_type@ == "long"@ || command_type@ == "all"@ {
                None
            } else {
                old(self).long_term_memory
            },
            r is Ok ==> final(self).entity_memory == if command_type@ == "entity"@ || command_type@ == "all"@ {
                None
            } else {
                old(self).entity_memory
            },
            r is Ok ==> final(self).external_memory == if command_type@ == "external"@ || command_type@ == "all"@ {
                None
            } else {
                old(self).external_memory
            },
            r is Ok ==> final(self).knowledge == if command_type@ == "knowledge"@ || command_type@ == "agent_knowledge"@
                || command_type@ == "all"@ {
                None
            } else {
                old(self).knowledge
            },
            r is Ok ==> final(self).execution_logs@ == if command_type@ == "kickoff_outputs"@ || command_type@ == "all"@ {
                Seq::empty()
            } else {
                old(self).execution_logs@
            },
    {
        proof {
            reveal_strlit("long");
            reveal_strlit("short");
            reveal_strlit("entity");
            reveal_strlit("knowledge");
            reveal_strlit("agent_knowledge");
            reveal_strlit("kickoff_outputs");
            reveal_strlit("all");
            reveal_strlit("external");
            assert("long"@.len() == 4);
            assert("short"@.len() == 5);
            assert("entity"@.len() == 6);
            assert("knowledge"@.len() == 9);
            assert("agent_knowledge"@.len() == 15 && "agent_knowledge"@[0] == 'a');
            assert("kickoff_outputs"@.len() == 15 && "kickoff_outputs"@[0] == 'k');
            assert("all"@.len() == 3);
            assert("external"@.len() == 8);
        }
        if crate::text::str_eq(command_type, "all") {
            self.short_term_memory = None;
            self.long_term_memory = None;
            self.entity_memory = None;
            self.external_memory = None;
            self.knowledge = None;
            self.execution_logs.clear();
        } else if crate::text::str_eq(command_type, "short") {
            self.short_term_memory = None;

        } else if crate::text::str_eq(command_type, "long") {
            self.long_term_memory = None;
        } else if crate::text::str_eq(command_type, "entity") {
            self.entity_memory = None;
        } else if crate::text::str_eq(command_type, "external") {
            self.external_memory = None;
        } else if crate::text::str_eq(command_type, "knowledge") || crate::text::str_eq(command_type, "agent_knowledge") {
            self.knowledge = None;
        } else if crate::text::str_eq(command_type, "kickoff_outputs") {
            self.execution_logs.clear();
        } else {
            return Err(
                String::from_str(
                    "Invalid command type. Must be one of: long, short, entity, knowledge, agent_knowledge, kickoff_outputs, all, external",
                ),
            );
        }
        Ok(())
    }
}

} // verus!
