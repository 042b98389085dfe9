//! Build, deploy and run tasks: which steps a task takes, and the commands that
//! the remote steps issue.

use vstd::prelude::*;
use vstd::string::*;

use crate::text::{decimal_digits, push_decimal};

verus! {

// ---------------------------------------------------------------------------
// Tasks
// ---------------------------------------------------------------------------

/// A task of the command line.
#[derive(Clone, Copy, Debug, PartialEq, Eq, Structural)]
pub enum Task {
    Kernel,
    Host,
    Build,
    Deploy,
    Run,
}

/// A step of a task.
#[derive(Clone, Copy, Debug, PartialEq, Eq, Structural)]
pub enum Step {
    /// Cross-compile the kernel.
    BuildKernel,
    /// Compile the host binary.
    BuildHost,
    /// Copy binaries and assets to the test machine.
    Deploy,
    /// Run the renderer on the test machine.
    RunRemote,
    /// Copy the image back.
    RetrieveOutput,
}

/// The steps of a task, in order; each one is taken only if all before it
/// succeeded.
pub open spec fn task_steps(task: Task) -> Seq<Step> {
    match task {
        Task::Kernel => seq![Step::BuildKernel],
        Task::Host => seq![Step::BuildHost],
        Task::Build => seq![Step::BuildKernel, Step::BuildHost],
        Task::Deploy => seq![Step::Deploy],
        Task::Run => seq![
            Step::BuildKernel,
            Step::BuildHost,
            Step::Deploy,
            Step::RunRemote,
            Step::RetrieveOutput,
        ],
    }
}

/// The steps of a task.
pub fn steps(task: Task) -> (r: Vec<Step>)
    ensures
        r@ == task_steps(task),
{
    let mut out: Vec<Step> = Vec::new();
    match task {
        Task::Kernel => {
            out.push(Step::BuildKernel);
        },
        Task::Host => {
            out.push(Step::BuildHost);
        },
        Task::Build => {
            out.push(Step::BuildKernel);
            out.push(Step::BuildHost);
        },
        Task::Deploy => {
            out.push(Step::Deploy);
        },
        Task::Run => {
            out.push(Step::BuildKernel);
            out.push(Step::BuildHost);
            out.push(Step::Deploy);
            out.push(Step::RunRemote);
            out.push(Step::RetrieveOutput);
        },
    }
    assert(out@ =~= task_steps(task));
    out
}

// ---------------------------------------------------------------------------
// Deployment
// ---------------------------------------------------------------------------

/// A command of the deployment.
pub enum Action {
    /// Run `script` on the test machine; `label` names it in messages.
    Remote { script: String, label: String },
    /// Copy the file at `source`, relative to the workspace root, to `target`.
    Upload { source: String, target: String },
}

/// What a command does, as texts.
#[verifier::ext_equal]
pub enum ActionView {
    Remote { script: Seq<char>, label: Seq<char> },
    Upload { source: Seq<char>, target: Seq<char> },
}

impl View for Action {
    type V = ActionView;

    open spec fn view(&self) -> ActionView {
        match self {
            Action::Remote { script, label } => ActionView::Remote {
                script: script@,
                label: label@,
            },
            Action::Upload { source, target } => ActionView::Upload {
                source: source@,
                target: target@,
            },
        }
    }
}

/// A path below the deployment directory of the test machine, as `scp` takes it.
pub open spec fn remote_path(remote: Seq<char>, dir: Seq<char>, file: Seq<char>) -> Seq<char> {
    remote + ":"@ + dir + "/"@ + file
}

/// The commands of a deployment, in order: make the directories, copy kernel, host
/// binary and scene, and set the execute bit that copying drops.
pub open spec fn deployment(remote: Seq<char>, dir: Seq<char>) -> Seq<ActionView> {
    seq![
        ActionView::Remote { script: "mkdir -p "@ + dir + "/assets"@, label: "ssh mkdir"@ },
        ActionView::Upload {
            source: "ff-kernel/target/riscv64imac-unknown-none-elf/release/ff-kernel"@,
            target: remote_path(remote, dir, "ff-kernel.elf"@),
        },
        ActionView::Upload {
            source: "target/release/et-radiosity"@,
            target: remote_path(remote, dir, "et-radiosity"@),
        },
        ActionView::Upload {
            source: "assets/cornell_box.obj"@,
            target: remote_path(remote, dir, "assets/cornell_box.obj"@),
        },
        ActionView::Upload {
            source: "assets/cornell_box.mtl"@,
            target: remote_path(remote, dir, "assets/cornell_box.mtl"@),
        },
        ActionView::Remote { script: "chmod +x "@ + dir + "/et-radiosity"@, label: "ssh chmod"@ },
    ]
}

fn below(remote: &str, dir: &str, file: &str) -> (r: String)
    ensures
        r@ == remote_path(remote@, dir@, file@),
{
    let mut out: String = remote.to_owned();
    out.append(":");
    out.append(dir);
    out.append("/");
    out.append(file);
    out
}

fn upload(remote: &str, dir: &str, source: &str, file: &str) -> (r: Action)
    ensures
        r@ == (ActionView::Upload { source: source@, target: remote_path(remote@, dir@, file@) }),
{
    Action::Upload { source: source.to_owned(), target: below(remote, dir, file) }
}

fn on_remote(before: &str, dir: &str, after: &str, label: &str) -> (r: Action)
    ensures
        r@ == (ActionView::Remote { script: before@ + dir@ + after@, label: label@ }),
{
    let mut script: String = before.to_owned();
    script.append(dir);
    script.append(after);
    Action::Remote { script, label: label.to_owned() }
}

/// The commands that copy kernel, host binary and scene to `dir` on `remote`.
pub fn deploy(remote: &str, dir: &str) -> (r: Vec<Action>)
    ensures
        r@.map_values(|a: Action| a@) == deployment(remote@, dir@),
{
    let mut out: Vec<Action> = Vec::new();
    out.push(on_remote("mkdir -p ", dir, "/assets", "ssh mkdir"));
    out.push(
        upload(
            remote,
            dir,
            "ff-kernel/target/riscv64imac-unknown-none-elf/release/ff-kernel",
            "ff-kernel.elf",
        ),
    );
    out.push(upload(remote, dir, "target/release/et-radiosity", "et-radiosity"));
    out.push(upload(remote, dir, "assets/cornell_box.obj", "assets/cornell_box.obj"));
    out.push(upload(remote, dir, "assets/cornell_box.mtl", "assets/cornell_box.mtl"));
    out.push(on_remote("chmod +x ", dir, "/et-radiosity", "ssh chmod"));
    assert(out@.map_values(|a: Action| a@) =~= deployment(remote@, dir@));
    out
}

// ---------------------------------------------------------------------------
// Remote run
// ---------------------------------------------------------------------------

/// Options of a remote run; the patch size as it is to be written.
pub struct RunOptions {
    pub patch_size: String,
    pub iterations: u32,
    pub width: u32,
    pub height: u32,
    pub device: u32,
    pub trace: bool,
}

/// The command line of a remote run.
pub open spec fn run_command(dir: Seq<char>, o: RunOptions) -> Seq<char> {
    "cd "@ + dir
        + " && ./et-radiosity --kernel ff-kernel.elf --scene  assets/cornell_box.obj --patch-size "@
        + o.patch_size@ + " --iterations "@ + decimal_digits(o.iterations as nat) + " --width "@
        + decimal_digits(o.width as nat) + " --height "@ + decimal_digits(o.height as nat)
        + " --output output.png --device "@ + decimal_digits(o.device as nat) + (if o.trace {
        " --trace"@
    } else {
        Seq::empty()
    })
}

/// The command that runs the renderer in `dir` on the test machine.
pub fn run_remote(dir: &str, o: &RunOptions) -> (r: String)
    ensures
        r@ == run_command(dir@, *o),
{
    let mut out: String = "cd ".to_owned();
    out.append(dir);
    out.append(
        " && ./et-radiosity --kernel ff-kernel.elf --scene  assets/cornell_box.obj --patch-size ",
    );
    out.append(o.patch_size.as_str());
    out.append(" --iterations ");
    push_decimal(&mut out, o.iterations as u64);
    out.append(" --width ");
    push_decimal(&mut out, o.width as u64);
    out.append(" --height ");
    push_decimal(&mut out, o.height as u64);
    out.append(" --output output.png --device ");
    push_decimal(&mut out, o.device as u64);
    if o.trace {
        out.append(" --trace");
    }
    assert(out@ =~= run_command(dir@, *o));
    out
}

/// Where a remote run leaves its image, as `scp` takes it.
pub fn retrieve_output(remote: &str, dir: &str) -> (r: String)
    ensures
        r@ == remote_path(remote@, dir@, "output.png"@),
{
    below(remote, dir, "output.png")
}

/// A call of `deploy` first makes the directories, last sets the execute bit, and in
/// between copies four files, all of them to the remote machine and below the
/// directory.
pub proof fn law_call_deploys(remote: &str, dir: &str, r: Vec<Action>, i: int)
    requires
        call_ensures(deploy, (remote, dir), r),
        1 <= i <= 4,
    ensures
        r@.len() == 6,
        r@[0]@ matches ActionView::Remote { script, .. } && script == "mkdir -p "@ + dir@
            + "/assets"@,
        r@[5]@ matches ActionView::Remote { script, .. } && script == "chmod +x "@ + dir@
            + "/et-radiosity"@,
        r@[i]@ matches ActionView::Upload { source, target } && target == remote@ + ":"@ + dir@
            + "/"@ + (if i == 1 {
            "ff-kernel.elf"@
        } else if i == 2 {
            "et-radiosity"@
        } else if i == 3 {
            "assets/cornell_box.obj"@
        } else {
            "assets/cornell_box.mtl"@
        }) && source == (if i == 1 {
            "ff-kernel/target/riscv64imac-unknown-none-elf/release/ff-kernel"@
        } else if i == 2 {
            "target/release/et-radiosity"@
        } else if i == 3 {
            "assets/cornell_box.obj"@
        } else {
            "assets/cornell_box.mtl"@
        }),
{
    let views = r@.map_values(|a: Action| a@);
    assert(views == deployment(remote@, dir@));
    assert(views.len() == 6);
    assert(views[0] == r@[0]@ && views[5] == r@[5]@ && views[i] == r@[i]@);
}

/// A call of `run_remote` passes every option behind its name, in decimal digits, and
/// the trace switch only if it is set.
pub proof fn law_call_runs(dir: &str, o: RunOptions, r: String)
    requires
        call_ensures(run_remote, (dir, &o), r),
    ensures
        r@ == "cd "@ + dir@
            + " && ./et-radiosity --kernel ff-kernel.elf --scene  assets/cornell_box.obj --patch-size "@
            + o.patch_size@ + " --iterations "@ + decimal_digits(o.iterations as nat) + " --width "@
            + decimal_digits(o.width as nat) + " --height "@ + decimal_digits(o.height as nat)
            + " --output output.png --device "@ + decimal_digits(o.device as nat) + (if o.trace {
            " --trace"@
        } else {
            Seq::empty()
        }),
{
}

/// A call of `retrieve_output` names the image below the directory of the remote
/// machine.
pub proof fn law_call_retrieves(remote: &str, dir: &str, r: String)
    requires
        call_ensures(retrieve_output, (remote, dir), r),
    ensures
        r@ == remote@ + ":"@ + dir@ + "/"@ + "output.png"@,
{
}

} // verus!
