use mempe::error::AppError;
use mempe::output::{
    clean_name, collision_policy, folder_step, is_reserved_windows_name, next_attempt,
    prompt_is_complete, read_prompt, save_action, suffixed_name, temporary_name, CollisionPolicy,
    Destinations, FolderStep, OutputFile, OutputPlan, SaveAction, WriteStep, Writing,
    MAX_NAME_ATTEMPTS,
};

#[test]
fn cleans_windows_names() -> Result<(), AppError> {
    assert_eq!(clean_name("C:\\bad<name>.dll")?, "bad_name_.dll");
    assert_eq!(clean_name("CON.dll")?, "_CON.dll");
    Ok(())
}

#[test]
fn suffix_stays_before_extension() {
    assert_eq!(suffixed_name("kernel32.dll", 2), "kernel32_2.dll");
    assert_eq!(suffixed_name("module", 3), "module_3");
}

fn naming(policy: CollisionPolicy, names: &[&str]) -> Result<Destinations, AppError> {
    let files: Vec<OutputFile<u32>> = names
        .iter()
        .map(|name| OutputFile { preferred_name: name.to_string(), bytes: vec![1], context: 7 })
        .collect();
    OutputPlan::new("folder".to_string(), policy).destinations(&files)
}

fn answered(mut naming: Destinations, on_disk: &[&str]) -> Result<Vec<String>, AppError> {
    while let Some(name) = naming.question() {
        let exists = on_disk.contains(&name.as_str());
        naming = naming.answer(exists)?;
    }
    Ok(naming.finish())
}

#[test]
fn names_differ_without_case() -> Result<(), AppError> {
    let naming = naming(CollisionPolicy::Overwrite, &["A.dll", "a.DLL", "a.dll", "b"])?;
    let names = answered(naming, &["A.dll"])?;
    assert_eq!(names, ["A.dll", "a_2.DLL", "a_3.dll", "b"]);
    Ok(())
}

#[test]
fn renaming_leaves_files_on_disk_alone() -> Result<(), AppError> {
    let naming = naming(CollisionPolicy::Rename, &["a.dll", "a.dll"])?;
    let names = answered(naming, &["a.dll", "a_3.dll"])?;
    assert_eq!(names, ["a_2.dll", "a_4.dll"]);
    Ok(())
}

#[test]
fn the_search_for_a_name_ends() -> Result<(), AppError> {
    let mut state = naming(CollisionPolicy::Rename, &["a.dll"])?;
    let mut tries = 0u32;
    let error = loop {
        tries += 1;
        match state.answer(true) {
            Ok(next) => state = next,
            Err(error) => break error,
        }
    };
    assert_eq!(tries, MAX_NAME_ATTEMPTS);
    assert_eq!(error.message(), "could not find a free output file name");
    Ok(())
}

#[test]
fn unusable_names_stop_the_naming() -> Result<(), AppError> {
    let error = naming(CollisionPolicy::Rename, &[".."]).err().unwrap();
    assert_eq!(error.message(), "output file name is not valid text");
    let error = naming(CollisionPolicy::Rename, &["... "]).err().unwrap();
    assert_eq!(error.message(), "output file name is empty");
    let first = naming(CollisionPolicy::Rename, &["a", ".."])?;
    let error = first.answer(false).err().unwrap();
    assert_eq!(error.message(), "output file name is not valid text");
    assert_eq!(answered(naming(CollisionPolicy::Rename, &[])?, &[])?.len(), 0);
    Ok(())
}

#[test]
fn cleaned_names_can_be_used() -> Result<(), AppError> {
    assert_eq!(clean_name("a\u{7}b\u{9F}?.dll")?, "a_b__.dll");
    assert_eq!(clean_name("name. . ")?, "name");
    assert_eq!(clean_name("lpt9")?, "_lpt9");
    assert_eq!(clean_name("COM0.txt")?, "COM0.txt");
    assert_eq!(clean_name("COM10")?, "COM10");
    assert_eq!(clean_name("com+1.x")?, "_com+1.x");
    let long = "x".repeat(200);
    assert_eq!(clean_name(&long)?.len(), 180);
    assert_eq!(clean_name(&clean_name("C:\\bad<name>.dll")?)?, "bad_name_.dll");
    let mut device = "con.".to_string();
    device.push_str(&"y".repeat(200));
    assert_eq!(clean_name(&device)?.len(), 181);
    assert!(is_reserved_windows_name("Nul.txt"));
    assert!(!is_reserved_windows_name("nulls"));
    Ok(())
}

#[test]
fn numbers_stand_before_the_extension() {
    assert_eq!(suffixed_name(".hidden", 2), ".hidden_2");
    assert_eq!(suffixed_name("a.b.dll", 10), "a.b_10.dll");
    assert_ne!(suffixed_name("a.dll", 11), suffixed_name("a.dll", 111));
}

#[test]
fn temporary_files_have_names_of_their_own() {
    assert_eq!(temporary_name(4216, 3, 0), ".mempe-4216-3-0.tmp");
}

#[test]
fn only_taken_temporary_names_are_tried_again() {
    assert_eq!(next_attempt(0, true, "exists"), Ok(1));
    assert_eq!(next_attempt(1022, true, "exists"), Ok(1023));
    let error = next_attempt(1023, true, "exists").unwrap_err();
    assert_eq!(error.message(), "could not make a temporary file after 1024 tries");
    let error = next_attempt(0, false, "denied").unwrap_err();
    assert_eq!(error.message(), "cannot create a temporary file in mempe: denied");
}

#[test]
fn folders_are_never_replaced() {
    for policy in [CollisionPolicy::Overwrite, CollisionPolicy::Rename] {
        assert_eq!(save_action(policy, true, true), SaveAction::Refuse);
        assert_eq!(save_action(policy, false, false), SaveAction::Move);
    }
    assert_eq!(save_action(CollisionPolicy::Overwrite, true, false), SaveAction::Replace);
    assert_eq!(save_action(CollisionPolicy::Rename, true, false), SaveAction::Move);
}

#[test]
fn the_user_is_asked_about_a_folder_with_files() {
    assert_eq!(folder_step(true, false, false, true), FolderStep::Refuse);
    assert_eq!(folder_step(false, false, false, true), FolderStep::Rename);
    assert_eq!(folder_step(true, true, false, true), FolderStep::Rename);
    assert_eq!(folder_step(true, true, true, false), FolderStep::Rename);
    assert_eq!(folder_step(true, true, true, true), FolderStep::Ask);
}

#[test]
fn answers_choose_the_policy() -> Result<(), AppError> {
    assert_eq!(collision_policy("")?, Some(CollisionPolicy::Rename));
    assert_eq!(collision_policy(" R ")?, Some(CollisionPolicy::Rename));
    assert_eq!(collision_policy("rename\t")?, Some(CollisionPolicy::Rename));
    assert_eq!(collision_policy("o")?, Some(CollisionPolicy::Overwrite));
    assert_eq!(collision_policy("OVERWRITE")?, Some(CollisionPolicy::Overwrite));
    assert_eq!(collision_policy("c")?, None);
    assert_eq!(collision_policy("Cancel")?, None);
    let error = collision_policy("yes").unwrap_err();
    assert_eq!(error.message(), "collision choice must be overwrite, rename, or cancel");
    Ok(())
}

#[test]
fn answers_are_one_line() -> Result<(), AppError> {
    assert_eq!(read_prompt(&b"over\r\nx".to_vec())?, "over");
    assert_eq!(read_prompt(&b"".to_vec())?, "");
    assert_eq!(read_prompt(&"\u{E4}\n".as_bytes().to_vec())?, "\u{E4}");
    assert_eq!(read_prompt(&b"0123456789abcdefXYZ".to_vec())?, "0123456789abcdef");
    let error = read_prompt(&vec![0xFF, 0x0A]).unwrap_err();
    assert_eq!(error.message(), "collision choice is not valid UTF-8");
    assert!(!prompt_is_complete(&b"o".to_vec()));
    assert!(prompt_is_complete(&b"o\n".to_vec()));
    assert!(prompt_is_complete(&b"0123456789abcdef".to_vec()));
    assert!(!prompt_is_complete(&Vec::new()));
    Ok(())
}

#[test]
fn plans_keep_their_folder() {
    let plan = OutputPlan::new("C:\\mempe".to_string(), CollisionPolicy::Overwrite);
    assert_eq!(plan.directory(), "C:\\mempe");
    assert_eq!(plan.policy(), CollisionPolicy::Overwrite);
}

#[test]
fn all_files_are_staged_before_one_is_saved() {
    let mut writing = Writing::start(2);
    let mut steps = Vec::new();
    while writing.next() != WriteStep::Finished {
        steps.push(writing.next());
        writing.go_on();
    }
    let expected =
        [WriteStep::Stage(0), WriteStep::Stage(1), WriteStep::Save(0), WriteStep::Save(1)];
    assert_eq!(steps, expected);
    writing.go_on();
    assert_eq!(writing.next(), WriteStep::Finished);
    assert_eq!(Writing::start(0).next(), WriteStep::Finished);
}
