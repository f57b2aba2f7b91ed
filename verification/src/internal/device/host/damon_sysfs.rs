//! What to write to the control files of the kernel's access monitor.
use super::damon::{AccessFrequencyScheme, DamonConfig};
use crate::text::{decimal, push_decimal};
use vstd::prelude::*;
use vstd::string::StringExecFns;

verus! {

/// The control files below a directory.
#[derive(Debug, Clone)]
pub struct DamonSysfs {
    /// The directory.
    pub root: String,
}

/// Which of the control files exist.
#[derive(Debug, Clone, Copy, PartialEq, Eq, Structural)]
pub struct SysfsTree {
    /// The directory itself.
    pub root: bool,
    /// `attrs`.
    pub attrs: bool,
    /// `admin_schemes`.
    pub admin_schemes: bool,
}

/// One step of a configuration. Paths are relative to the directory of the files.
#[derive(Debug, Clone, PartialEq, Eq)]
pub enum SysfsStep {
    /// Create a directory and those above it.
    MakeDir(&'static str),
    /// Write a file.
    Write {
        /// The file.
        path: &'static str,
        /// What it holds then.
        text: String,
    },
    /// Write a file, and go on where that fails.
    TryWrite {
        /// The file.
        path: &'static str,
        /// What it holds then.
        text: String,
    },
}

/// One step, with its texts as characters.
pub ghost enum StepView {
    /// Create a directory and those above it.
    MakeDir(Seq<char>),
    /// Write a file.
    Write(Seq<char>, Seq<char>),
    /// Write a file, and go on where that fails.
    TryWrite(Seq<char>, Seq<char>),
}

impl View for SysfsStep {
    type V = StepView;

    open spec fn view(&self) -> StepView {
        match *self {
            SysfsStep::MakeDir(path) => StepView::MakeDir(path@),
            SysfsStep::Write { path, text } => StepView::Write(path@, text@),
            SysfsStep::TryWrite { path, text } => StepView::TryWrite(path@, text@),
        }
    }
}

/// Text of `attrs`: the sampling, counting and update interval, and how few and how
/// many regions.
pub open spec fn attrs_text(cfg: DamonConfig) -> Seq<char> {
    decimal(cfg.sample_interval_ms as nat) + " "@ + decimal(cfg.aggregation_interval_ms as nat)
        + " "@ + decimal(cfg.sample_interval_ms as nat) + " 10 1000\n"@
}

/// Text of a scheme in one file.
pub open spec fn scheme_text(scheme: AccessFrequencyScheme) -> Seq<char> {
    "max_accesses="@ + decimal(scheme.max_accesses as nat) + " min_age_ms="@ + decimal(
        scheme.min_age_ms as nat,
    ) + " target_node="@ + decimal(scheme.target_node as nat) + "\n"@
}

/// The steps that set the scheme.
pub open spec fn scheme_steps(scheme: AccessFrequencyScheme, tree: SysfsTree) -> Seq<StepView> {
    if !tree.admin_schemes {
        seq![StepView::Write("scheme"@, scheme_text(scheme))]
    } else {
        let full = seq![
            StepView::MakeDir("admin_schemes/0"@),
            StepView::Write("admin_schemes/0/action"@, "pageout\n"@),
            StepView::MakeDir("admin_schemes/0/access_pattern"@),
            StepView::Write(
                "admin_schemes/0/access_pattern/nr_accesses"@,
                "0 "@ + decimal(scheme.max_accesses as nat) + "\n"@,
            ),
            StepView::Write(
                "admin_schemes/0/access_pattern/age"@,
                decimal(scheme.min_age_ms as nat) + " max\n"@,
            ),
        ];
        if tree.root {
            full.push(
                StepView::TryWrite(
                    "target_node"@,
                    decimal(scheme.target_node as nat) + "\n"@,
                ),
            )
        } else {
            full
        }
    }
}

/// The steps that set a configuration.
pub open spec fn config_steps(cfg: DamonConfig, tree: SysfsTree) -> Seq<StepView> {
    if tree.attrs {
        seq![StepView::Write("attrs"@, attrs_text(cfg))] + scheme_steps(cfg.scheme, tree)
    } else {
        scheme_steps(cfg.scheme, tree)
    }
}

/// The steps as a caller sees them.
pub open spec fn views(steps: Seq<SysfsStep>) -> Seq<StepView> {
    steps.map_values(|s: SysfsStep| s@)
}

fn push_step(steps: &mut Vec<SysfsStep>, step: SysfsStep)
    ensures
        views(final(steps)@) == views(old(steps)@).push(step@),
{
    steps.push(step);
    assert(views(steps@) =~= views(old(steps)@).push(step@));
}

/// The digits of a number between two texts.
fn around(head: &str, n: u64, tail: &str) -> (s: String)
    ensures
        s@ == head@ + decimal(n as nat) + tail@,
{
    let mut s = String::from_str(head);
    push_decimal(&mut s, n);
    s.append(tail);
    s
}

impl DamonSysfs {
    /// The files of the running kernel.
    #[must_use]
    pub fn system() -> (sysfs: Self)
        ensures
            sysfs.root@ == "/sys/kernel/mm/damon"@,
    {
        DamonSysfs { root: String::from_str("/sys/kernel/mm/damon") }
    }

    /// The files below another directory.
    #[must_use]
    pub fn at(root: &str) -> (sysfs: Self)
        ensures
            sysfs.root@ == root@,
    {
        DamonSysfs { root: String::from_str(root) }
    }

    /// Whether one of the expected control files exists.
    #[must_use]
    pub fn available(&self, tree: SysfsTree) -> (b: bool)
        ensures
            b == (tree.admin_schemes || tree.attrs),
    {
        tree.admin_schemes || tree.attrs
    }

    /// The steps that set a configuration, in order. Where there is no `attrs`, the
    /// sampling is left alone; where there is no `admin_schemes`, the scheme goes to
    /// one file.
    pub fn apply(&self, cfg: DamonConfig, tree: SysfsTree) -> (steps: Vec<SysfsStep>)
        ensures
            views(steps@) == config_steps(cfg, tree),
    {
        let mut steps: Vec<SysfsStep> = Vec::new();
        assert(views(steps@) =~= Seq::empty());
        if tree.attrs {
            let mut text = around("", cfg.sample_interval_ms, " ");
            push_decimal(&mut text, cfg.aggregation_interval_ms);
            text.append(" ");
            push_decimal(&mut text, cfg.sample_interval_ms);
            text.append(" 10 1000\n");
            proof {
                reveal_strlit("");
            }
            assert(text@ =~= attrs_text(cfg));
            push_step(&mut steps, SysfsStep::Write { path: "attrs", text });
        }
        let ghost head = views(steps@);
        self.write_scheme(&cfg.scheme, tree, &mut steps);
        assert(views(steps@) =~= config_steps(cfg, tree));
        steps
    }

    fn write_scheme(
        &self,
        scheme: &AccessFrequencyScheme,
        tree: SysfsTree,
        steps: &mut Vec<SysfsStep>,
    )
        ensures
            views(final(steps)@) == views(old(steps)@) + scheme_steps(*scheme, tree),
    {
        proof {
            reveal_strlit("");
        }
        if !tree.admin_schemes {
            let mut text = around("max_accesses=", scheme.max_accesses as u64, " min_age_ms=");
            push_decimal(&mut text, scheme.min_age_ms);
            text.append(" target_node=");
            push_decimal(&mut text, scheme.target_node as u64);
            text.append("\n");
            assert(text@ =~= scheme_text(*scheme));
            push_step(steps, SysfsStep::Write { path: "scheme", text });
        } else {
            push_step(steps, SysfsStep::MakeDir("admin_schemes/0"));
            push_step(
                steps,
                SysfsStep::Write {
                    path: "admin_schemes/0/action",
                    text: String::from_str("pageout\n"),
                },
            );
            push_step(steps, SysfsStep::MakeDir("admin_schemes/0/access_pattern"));
            push_step(
                steps,
                SysfsStep::Write {
                    path: "admin_schemes/0/access_pattern/nr_accesses",
                    text: around("0 ", scheme.max_accesses as u64, "\n"),
                },
            );
            let age = around("", scheme.min_age_ms, " max\n");
            assert(age@ =~= decimal(scheme.min_age_ms as nat) + " max\n"@);
            push_step(
                steps,
                SysfsStep::Write { path: "admin_schemes/0/access_pattern/age", text: age },
            );
            if tree.root {
                let node = around("", scheme.target_node as u64, "\n");
                assert(node@ =~= decimal(scheme.target_node as nat) + "\n"@);
                push_step(steps, SysfsStep::TryWrite { path: "target_node", text: node });
            }
        }
        assert(views(steps@) =~= views(old(steps)@) + scheme_steps(*scheme, tree));
    }
}

/// What a configuration writes. The intervals go to `attrs`, where there is such a
/// file, before everything else: sampling, aggregation and sampling again, with 10
/// to 1000 regions. The scheme then goes to a directory of its own, with the most
/// accesses and the least age, and its target node last, where the tree allows it;
/// or all on one line where there is no such directory.
pub proof fn law_configuration_steps(cfg: DamonConfig, tree: SysfsTree)
    ensures
        ({
            let steps = config_steps(cfg, tree);
            let at = if tree.attrs {
                1int
            } else {
                0int
            };
            let accesses = decimal(cfg.scheme.max_accesses as nat);
            let age = decimal(cfg.scheme.min_age_ms as nat);
            let node = decimal(cfg.scheme.target_node as nat);
            let sample = decimal(cfg.sample_interval_ms as nat);
            let aggregation = decimal(cfg.aggregation_interval_ms as nat);
            &&& tree.attrs ==> steps[0] == StepView::Write(
                "attrs"@,
                sample + " "@ + aggregation + " "@ + sample + " 10 1000\n"@,
            )
            &&& steps.len() == at + (if !tree.admin_schemes {
                1int
            } else if tree.root {
                6int
            } else {
                5int
            })
            &&& !tree.admin_schemes ==> steps[at] == StepView::Write(
                "scheme"@,
                "max_accesses="@ + accesses + " min_age_ms="@ + age + " target_node="@ + node
                    + "\n"@,
            )
            &&& tree.admin_schemes ==> {
                &&& steps[at] == StepView::MakeDir("admin_schemes/0"@)
                &&& steps[at + 1] == StepView::Write("admin_schemes/0/action"@, "pageout\n"@)
                &&& steps[at + 2] == StepView::MakeDir("admin_schemes/0/access_pattern"@)
                &&& steps[at + 3] == StepView::Write(
                    "admin_schemes/0/access_pattern/nr_accesses"@,
                    "0 "@ + accesses + "\n"@,
                )
                &&& steps[at + 4] == StepView::Write(
                    "admin_schemes/0/access_pattern/age"@,
                    age + " max\n"@,
                )
            }
            &&& tree.admin_schemes && tree.root ==> steps[at + 5] == StepView::TryWrite(
                "target_node"@,
                node + "\n"@,
            )
        }),
{
}

} // verus!
