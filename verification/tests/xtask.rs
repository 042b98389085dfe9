use et_radiosity::xtask::{deploy, retrieve_output, run_remote, steps, Action, RunOptions, Step, Task};

fn show(a: &Action) -> String {
    match a {
        Action::Remote { script, label } => format!("{label}: {script}"),
        Action::Upload { source, target } => format!("{source} -> {target}"),
    }
}

#[test]
fn tasks_take_their_steps() {
    assert_eq!(steps(Task::Kernel), vec![Step::BuildKernel]);
    assert_eq!(steps(Task::Host), vec![Step::BuildHost]);
    assert_eq!(steps(Task::Build), vec![Step::BuildKernel, Step::BuildHost]);
    assert_eq!(steps(Task::Deploy), vec![Step::Deploy]);
    assert_eq!(
        steps(Task::Run),
        vec![
            Step::BuildKernel,
            Step::BuildHost,
            Step::Deploy,
            Step::RunRemote,
            Step::RetrieveOutput
        ]
    );
}

#[test]
fn deployment_copies_everything() {
    let actions: Vec<String> = deploy("user@box", "~/et-radiosity").iter().map(show).collect();
    assert_eq!(
        actions,
        vec![
            "ssh mkdir: mkdir -p ~/et-radiosity/assets",
            "ff-kernel/target/riscv64imac-unknown-none-elf/release/ff-kernel -> user@box:~/et-radiosity/ff-kernel.elf",
            "target/release/et-radiosity -> user@box:~/et-radiosity/et-radiosity",
            "assets/cornell_box.obj -> user@box:~/et-radiosity/assets/cornell_box.obj",
            "assets/cornell_box.mtl -> user@box:~/et-radiosity/assets/cornell_box.mtl",
            "ssh chmod: chmod +x ~/et-radiosity/et-radiosity",
        ]
    );
}

#[test]
fn remote_run_passes_all_options() {
    let mut o = RunOptions {
        patch_size: format!("{}", 0.1f32),
        iterations: 150,
        width: 512,
        height: 1024,
        device: 0,
        trace: false,
    };
    let plain = "cd ~/r && ./et-radiosity --kernel ff-kernel.elf --scene  assets/cornell_box.obj \
                 --patch-size 0.1 --iterations 150 --width 512 --height 1024 --output output.png \
                 --device 0";
    assert_eq!(run_remote("~/r", &o), plain);
    o.trace = true;
    assert_eq!(run_remote("~/r", &o), format!("{plain} --trace"));
}

#[test]
fn image_is_fetched_from_the_directory() {
    assert_eq!(retrieve_output("user@box", "~/r"), "user@box:~/r/output.png");
}
