use rover_nav::command::{parse_command, recognise, Command, Recognised};

#[test]
fn every_command_word_is_read() {
    assert_eq!(parse_command("forward"), Some(Command::Forward));
    assert_eq!(parse_command("backward"), Some(Command::Backward));
    assert_eq!(parse_command("left"), Some(Command::Left));
    assert_eq!(parse_command("right"), Some(Command::Right));
    assert_eq!(parse_command("navigate"), Some(Command::Navigate));
    assert_eq!(parse_command("scan"), Some(Command::Scan));
    assert_eq!(parse_command("terrain"), Some(Command::Terrain));
    assert_eq!(parse_command("connect"), Some(Command::Connect));
    assert_eq!(parse_command("send_data"), Some(Command::SendData));
    assert_eq!(parse_command("autopilot"), Some(Command::Autopilot));
    assert_eq!(parse_command("pathfind"), Some(Command::Pathfind));
    assert_eq!(parse_command("exit"), Some(Command::Exit));
}

#[test]
fn other_words_name_no_command() {
    assert_eq!(parse_command("disconnect"), None);
    assert_eq!(parse_command("Forward"), None);
    assert_eq!(parse_command(""), None);
    assert_eq!(parse_command("path"), None);
}

#[test]
fn arity_of_each_command() {
    assert_eq!(Command::Forward.arity(), 1);
    assert_eq!(Command::Backward.arity(), 1);
    assert_eq!(Command::Left.arity(), 1);
    assert_eq!(Command::Right.arity(), 1);
    assert_eq!(Command::Terrain.arity(), 1);
    assert_eq!(Command::Navigate.arity(), 2);
    assert_eq!(Command::Pathfind.arity(), 4);
    assert_eq!(Command::Scan.arity(), 0);
    assert_eq!(Command::Connect.arity(), 0);
    assert_eq!(Command::SendData.arity(), 0);
    assert_eq!(Command::Autopilot.arity(), 0);
    assert_eq!(Command::Exit.arity(), 0);
}

#[test]
fn command_with_its_arguments_is_run() {
    assert_eq!(recognise("pathfind", 4), Recognised::Run(Command::Pathfind));
    assert_eq!(recognise("pathfind", 6), Recognised::Run(Command::Pathfind));
    assert_eq!(recognise("forward", 1), Recognised::Run(Command::Forward));
    assert_eq!(recognise("navigate", 2), Recognised::Run(Command::Navigate));
    assert_eq!(recognise("scan", 0), Recognised::Run(Command::Scan));
    assert_eq!(recognise("exit", 3), Recognised::Run(Command::Exit));
}

#[test]
fn command_that_lacks_arguments_is_incomplete() {
    assert_eq!(recognise("pathfind", 3), Recognised::Incomplete(Command::Pathfind));
    assert_eq!(recognise("forward", 0), Recognised::Incomplete(Command::Forward));
    assert_eq!(recognise("navigate", 1), Recognised::Incomplete(Command::Navigate));
    assert_eq!(recognise("terrain", 0), Recognised::Incomplete(Command::Terrain));
}

#[test]
fn unknown_word_is_invalid() {
    assert_eq!(recognise("fly", 2), Recognised::Invalid);
    assert_eq!(recognise("disconnect", 0), Recognised::Invalid);
}
