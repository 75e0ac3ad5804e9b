use snafu::procs::{
    Action, Event, KILLED_CODE, LaunchError, Stage, Supervisor, child_args, exit_code,
    interrupt_target,
};
use snafu::run::{
    AfterTool, after_tool, interpreter_command, manager_command, module_command, relink_command,
};
use snafu::shims::Shim;

fn strings(list: &[&str]) -> Vec<String> {
    list.iter().map(|s| s.to_string()).collect()
}

#[test]
fn exit_code_passes_child_code() {
    assert_eq!(exit_code(Some(5)), 5);
    assert_eq!(exit_code(Some(0)), 0);
    assert_eq!(exit_code(Some(-1)), -1);
}

#[test]
fn exit_code_without_code_is_killed() {
    assert_eq!(exit_code(None), 137);
    assert_eq!(KILLED_CODE, 137);
}

#[test]
fn child_args_with_own() {
    let args = strings(&["-m", "pip"]);
    let own = strings(&["pip.exe", "install", "requests"]);
    assert_eq!(child_args(&args, &own, true), strings(&["-m", "pip", "install", "requests"]));
}

#[test]
fn child_args_without_own() {
    let args = strings(&["-m", "snafu", "link"]);
    let own = strings(&["pip.exe", "install"]);
    assert_eq!(child_args(&args, &own, false), args);
    assert_eq!(child_args(&args, &Vec::new(), true), args);
    assert_eq!(child_args(&Vec::new(), &strings(&["python.exe"]), true), Vec::<String>::new());
}

#[test]
fn interrupt_goes_to_child() {
    assert_eq!(interrupt_target(true, 4242), Some(4242));
    assert_eq!(interrupt_target(true, 0), None);
    assert_eq!(interrupt_target(false, 4242), None);
}

#[test]
fn supervisor_runs_child_to_exit() {
    let mut sup = Supervisor::new();
    assert_eq!(sup.stage(), Stage::Idle);
    assert_eq!(sup.handle(Event::Start), Action::Spawn);
    assert_eq!(sup.handle(Event::SpawnSucceeded { pid: 77 }), Action::BindJob { pid: 77 });
    assert_eq!(sup.stage(), Stage::Spawned { pid: 77 });
    assert_eq!(sup.handle(Event::JobBound), Action::Wait);
    assert_eq!(sup.stage(), Stage::Running { pid: 77 });
    assert_eq!(sup.handle(Event::ChildExited { code: Some(5) }), Action::Finish { code: 5 });
    assert_eq!(sup.stage(), Stage::Exited { code: 5 });
}

#[test]
fn supervisor_reports_killed_child() {
    let mut sup = Supervisor::new();
    sup.handle(Event::Start);
    sup.handle(Event::SpawnSucceeded { pid: 9 });
    sup.handle(Event::JobBound);
    assert_eq!(sup.handle(Event::ChildExited { code: None }), Action::Finish { code: 137 });
}

#[test]
fn supervisor_job_failure_stops_child() {
    let mut sup = Supervisor::new();
    sup.handle(Event::Start);
    sup.handle(Event::SpawnSucceeded { pid: 12 });
    assert_eq!(
        sup.handle(Event::JobFailed),
        Action::Kill { pid: 12, error: LaunchError::JobSetup }
    );
    assert_eq!(sup.stage(), Stage::Failed { error: LaunchError::JobSetup });
    assert_eq!(sup.handle(Event::JobBound), Action::Ignore);
    assert_eq!(sup.handle(Event::ChildExited { code: Some(0) }), Action::Ignore);
    assert_eq!(sup.stage(), Stage::Failed { error: LaunchError::JobSetup });
}

#[test]
fn supervisor_does_not_wait_unbound_child() {
    let mut sup = Supervisor::new();
    sup.handle(Event::Start);
    sup.handle(Event::SpawnSucceeded { pid: 3 });
    assert_eq!(sup.handle(Event::ChildExited { code: Some(0) }), Action::Ignore);
    assert_eq!(sup.stage(), Stage::Spawned { pid: 3 });
}

#[test]
fn supervisor_spawn_failure() {
    let mut sup = Supervisor::new();
    sup.handle(Event::Start);
    assert_eq!(sup.handle(Event::SpawnFailed), Action::Abort { error: LaunchError::Spawn });
    assert_eq!(sup.stage(), Stage::Failed { error: LaunchError::Spawn });
}

#[test]
fn supervisor_wait_failure() {
    let mut sup = Supervisor::new();
    sup.handle(Event::Start);
    sup.handle(Event::SpawnSucceeded { pid: 3 });
    sup.handle(Event::JobBound);
    assert_eq!(sup.handle(Event::WaitFailed), Action::Abort { error: LaunchError::Wait });
}

#[test]
fn module_launch_args() {
    let shim = Shim::from_name("pip3.6");
    let own = strings(&["pip3.6.exe", "install", "-U", "wheel"]);
    assert_eq!(module_command(&shim, &own), strings(&["-m", "pip", "install", "-U", "wheel"]));
    assert_eq!(module_command(&shim, &Vec::new()), strings(&["-m", "pip"]));
}

#[test]
fn interpreter_launch_args() {
    let own = strings(&["python3.exe", "-c", "print(1)"]);
    assert_eq!(interpreter_command(&own), strings(&["-c", "print(1)"]));
    assert_eq!(interpreter_command(&strings(&["python.exe"])), Vec::<String>::new());
}

#[test]
fn manager_launch_args() {
    let own = strings(&["snafu.exe", "use", "3.6"]);
    assert_eq!(manager_command(&own), strings(&["-m", "snafu", "use", "3.6"]));
}

#[test]
fn relink_ignores_own_args() {
    let own = strings(&["pip.exe", "install", "requests"]);
    let expected = strings(&["-m", "snafu", "link", "--all", "--overwrite=smart"]);
    assert_eq!(relink_command(&own), expected);
    assert_eq!(relink_command(&Vec::new()), expected);
}

#[test]
fn tool_success_relinks() {
    assert_eq!(after_tool(0), AfterTool::Relink);
    assert_eq!(after_tool(2), AfterTool::Exit { code: 2 });
    assert_eq!(after_tool(-1), AfterTool::Exit { code: -1 });
}
