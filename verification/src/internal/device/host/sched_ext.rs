//! Scheduling of the polling and gathering threads.
use vstd::prelude::*;
use vstd::string::StringExecFns;

verus! {

/// What a thread does.
#[derive(Debug, Clone, Copy, PartialEq, Eq, Structural)]
pub enum SchedTaskRole {
    /// Polls submissions.
    SqPoll,
    /// Gathers features.
    Gather,
    /// Anything else.
    Other,
}

/// How a thread is dispatched.
#[derive(Debug, Clone, Copy, PartialEq, Eq, Structural)]
pub struct SchedDecision {
    /// Never take the processor away.
    pub never_preempt: bool,
    /// The node to run on, if one is preferred.
    pub preferred_numa_node: Option<u32>,
}

/// The scheduling policy.
#[derive(Debug, Clone, Copy, PartialEq, Eq, Structural)]
pub struct SchedExtPolicy {
    /// The node of the network card.
    pub nic_local_numa_node: u32,
}

impl SchedExtPolicy {
    /// Polling threads keep their processor; polling and gathering threads run next
    /// to the network card.
    pub fn decision_for(self, role: SchedTaskRole) -> (d: SchedDecision)
        ensures
            d.never_preempt == (role is SqPoll),
            d.preferred_numa_node == (if role is Other {
                None
            } else {
                Some(self.nic_local_numa_node)
            }),
    {
        match role {
            SchedTaskRole::SqPoll => SchedDecision {
                never_preempt: true,
                preferred_numa_node: Some(self.nic_local_numa_node),
            },
            SchedTaskRole::Gather => SchedDecision {
                never_preempt: false,
                preferred_numa_node: Some(self.nic_local_numa_node),
            },
            SchedTaskRole::Other => SchedDecision {
                never_preempt: false,
                preferred_numa_node: None,
            },
        }
    }

    /// The number by which the kernel side knows a role.
    pub fn bpf_role_tag(role: SchedTaskRole) -> (tag: u32)
        ensures
            tag == (match role {
                SchedTaskRole::Other => 0u32,
                SchedTaskRole::SqPoll => 1u32,
                SchedTaskRole::Gather => 2u32,
            }),
    {
        match role {
            SchedTaskRole::Other => 0,
            SchedTaskRole::SqPoll => 1,
            SchedTaskRole::Gather => 2,
        }
    }
}

/// Why a policy was not attached.
#[derive(Debug, Clone, Copy, PartialEq, Eq, Structural)]
pub enum SchedExtError {
    /// The object file does not exist.
    NotFound,
    /// The system has no such scheduler.
    NotLinux,
    /// The object file is too small.
    InvalidData,
    /// The object file is there, but nothing that loads it is linked.
    Unsupported,
}

/// An object file with the policy that it is to run.
#[derive(Debug, Clone)]
pub struct SchedExtLoader {
    /// The object file.
    pub object_path: String,
    /// The policy.
    pub policy: SchedExtPolicy,
}

impl SchedExtLoader {
    /// Takes the path that the environment names, or else the default one.
    pub fn discover(policy: SchedExtPolicy, named: Option<String>) -> (loader: Self)
        ensures
            loader.policy == policy,
            named matches Some(path) ==> loader.object_path == path,
            named is None ==> loader.object_path@ == "sched_ext_aether.bpf.o"@,
    {
        let object_path = match named {
            Some(path) => path,
            None => String::from_str("sched_ext_aether.bpf.o"),
        };
        SchedExtLoader { object_path, policy }
    }

    /// Takes the object file at `object_path`.
    pub fn with_object(policy: SchedExtPolicy, object_path: &str) -> (loader: Self)
        ensures
            loader.policy == policy,
            loader.object_path@ == object_path@,
    {
        SchedExtLoader { object_path: String::from_str(object_path), policy }
    }

    /// What comes of attaching an object file of `size` bytes, or none. The file has
    /// to exist and to be large enough for its header; loading it is not linked.
    pub fn attach(&self, size: Option<u64>, linux: bool) -> (r: Result<(), SchedExtError>)
        ensures
            r == Err::<(), SchedExtError>(
                match size {
                    None => SchedExtError::NotFound,
                    Some(n) => if !linux {
                        SchedExtError::NotLinux
                    } else if n < 64 {
                        SchedExtError::InvalidData
                    } else {
                        SchedExtError::Unsupported
                    },
                },
            ),
    {
        match size {
            None => Err(SchedExtError::NotFound),
            Some(n) => if !linux {
                Err(SchedExtError::NotLinux)
            } else if n < 64 {
                Err(SchedExtError::InvalidData)
            } else {
                Err(SchedExtError::Unsupported)
            },
        }
    }

    /// The text of an error.
    pub fn message(&self, e: SchedExtError) -> (s: String)
        ensures
            s@ == (match e {
                SchedExtError::NotFound => "BPF object "@ + self.object_path@
                    + " missing \u{2014} build with --features sched_ext_bpf"@,
                SchedExtError::NotLinux => "sched_ext attach is Linux-only"@,
                SchedExtError::InvalidData => "BPF object too small to be a valid ELF"@,
                SchedExtError::Unsupported => "SchedExtLoader: object "@ + self.object_path@
                    + " ready; attach via aya/libbpf struct_ops on a CONFIG_SCHED_CLASS_EXT kernel (TODO(HARDWARE) grind)"@,
            }),
    {
        match e {
            SchedExtError::NotFound => {
                let mut s = String::from_str("BPF object ");
                s.append(self.object_path.as_str());
                s.append(" missing \u{2014} build with --features sched_ext_bpf");
                s
            },
            SchedExtError::NotLinux => String::from_str("sched_ext attach is Linux-only"),
            SchedExtError::InvalidData => String::from_str("BPF object too small to be a valid ELF"),
            SchedExtError::Unsupported => {
                let mut s = String::from_str("SchedExtLoader: object ");
                s.append(self.object_path.as_str());
                s.append(
                    " ready; attach via aya/libbpf struct_ops on a CONFIG_SCHED_CLASS_EXT kernel (TODO(HARDWARE) grind)",
                );
                s
            },
        }
    }

    /// The object file.
    pub fn object_path(&self) -> (path: &str)
        ensures
            path@ == self.object_path@,
    {
        self.object_path.as_str()
    }
}

} // verus!
