use s2::archive::{listed_names, ArchiveEntry};
use s2::bot::{Bot, Command, Event, Fault, Outgoing, Reaction};
use s2::protocol::{Hero, Projectile, Wall};

fn hero(id: i32, owner_id: i32, x: i32, y: i32, cooldown: i32) -> Hero {
    Hero { id, owner_id, x, y, cooldown }
}

#[test]
fn new_bot_boards() {
    let bot = Bot::new();
    assert!(bot.path_matrix.iter().all(|row| row.iter().all(|&v| v == 1)));
    assert!(bot.score_matrix.iter().all(|row| row.iter().all(|&v| v == 0)));
}

#[test]
fn hello_is_answered_with_login() {
    let mut bot = Bot::new();
    assert_eq!(bot.step(Event::Hello), Reaction::Send(vec![Outgoing::Login]));
}

#[test]
fn ready_asks_for_practice() {
    let mut bot = Bot::new();
    assert_eq!(bot.step(Event::Ready), Reaction::Send(vec![Outgoing::Practice]));
}

#[test]
fn error_stops_and_end_match_idles() {
    let mut bot = Bot::new();
    assert_eq!(bot.step(Event::Error), Reaction::Stop);
    assert_eq!(bot.step(Event::EndMatch), Reaction::Idle);
}

#[test]
fn client_commands_from_the_server_are_faults() {
    let mut bot = Bot::new();
    assert_eq!(bot.step(Event::Login), Reaction::Fail(Fault::Unexpected(Command::Login)));
    assert_eq!(bot.step(Event::Practice), Reaction::Fail(Fault::Unexpected(Command::Practice)));
    assert_eq!(bot.step(Event::Move), Reaction::Fail(Fault::Unexpected(Command::Move)));
    assert_eq!(bot.step(Event::Shoot), Reaction::Fail(Fault::Unexpected(Command::Shoot)));
}

#[test]
fn start_match_draws_walls_into_both_boards() {
    let mut bot = Bot::new();
    let r = bot.step(Event::StartMatch { your_player_id: 3, walls: vec![Wall { x: 4, y: 7 }] });
    assert_eq!(r, Reaction::Idle);
    assert_eq!(bot.path_matrix[7][4], -50);
    assert_eq!(bot.path_matrix[8][5], -50);
    assert_eq!(bot.path_matrix[9][4], 1);
    assert_eq!(bot.score_matrix[6][3], -50);
    assert_eq!(bot.score_matrix[9][4], 0);
}

#[test]
fn start_match_with_a_wall_off_the_board_fails() {
    let mut bot = Bot::new();
    let r = bot.step(Event::StartMatch { your_player_id: 3, walls: vec![Wall { x: 51, y: 7 }] });
    assert_eq!(r, Reaction::Fail(Fault::OutOfRange));
}

#[test]
fn turn_moves_the_first_hero() {
    let mut bot = Bot::new();
    let heroes = vec![hero(7, 0, 1, 1, 5)];
    let r = bot.step(Event::StartTurn { heroes, projectiles: vec![] });
    match r {
        Reaction::Send(orders) => {
            assert_eq!(orders.len(), 1);
            match orders[0] {
                Outgoing::Order { command, hero_id, x, y } => {
                    assert_eq!(command, Command::Move);
                    assert_eq!(hero_id, 7);
                    // The row of the next cell goes out as `x`.
                    assert_eq!(x, 4);
                    assert!(y == 1 || y == 4);
                }
                _ => panic!("not an order"),
            }
        }
        other => panic!("unexpected reaction {other:?}"),
    }
    assert_eq!(bot.score_matrix[40][4], 5);
}

#[test]
fn turn_with_three_heroes_shoots_when_ready() {
    let mut bot = Bot::new();
    let heroes = vec![hero(7, 0, 1, 1, 0), hero(8, 0, 4, 4, 0), hero(9, 2, 30, 60, 3)];
    let r = bot.step(Event::StartTurn { heroes, projectiles: vec![] });
    assert_eq!(
        r,
        Reaction::Send(vec![
            Outgoing::Order { command: Command::Shoot, hero_id: 7, x: 30, y: 60 },
            Outgoing::Order { command: Command::Shoot, hero_id: 8, x: 30, y: 60 },
        ])
    );
}

#[test]
fn turn_orders_only_own_second_hero() {
    let mut bot = Bot::new();
    let heroes = vec![hero(7, 0, 1, 1, 0), hero(8, 5, 4, 4, 0), hero(9, 2, 30, 60, 3)];
    let r = bot.step(Event::StartTurn { heroes, projectiles: vec![] });
    assert_eq!(r, Reaction::Send(vec![Outgoing::Order { command: Command::Shoot, hero_id: 7, x: 30, y: 60 }]));
    // The second hero is an opponent and lowers the scores around it.
    assert_eq!(bot.score_matrix[4][4], 1 - 18);
}

#[test]
fn turn_without_heroes_fails() {
    let mut bot = Bot::new();
    let r = bot.step(Event::StartTurn { heroes: vec![], projectiles: vec![] });
    assert_eq!(r, Reaction::Fail(Fault::OutOfRange));
}

#[test]
fn turn_with_hero_off_the_board_fails() {
    let mut bot = Bot::new();
    let r = bot.step(Event::StartTurn { heroes: vec![hero(7, 0, -1, 1, 0)], projectiles: vec![] });
    assert_eq!(r, Reaction::Fail(Fault::OutOfRange));
}

#[test]
fn turn_with_projectile_off_the_board_fails() {
    let mut bot = Bot::new();
    let projectiles = vec![Projectile { owner_id: 4, x: 100, y: 1, origin_x: 0, origin_y: 0 }];
    let r = bot.step(Event::StartTurn { heroes: vec![hero(7, 0, 1, 1, 0)], projectiles });
    assert_eq!(r, Reaction::Fail(Fault::OutOfRange));
    // The board could not be scored, so the scores stay as they were.
    assert!(bot.score_matrix.iter().all(|row| row.iter().all(|&v| v == 0)));
}

#[test]
fn own_projectiles_do_not_count() {
    let mut bot = Bot::new();
    let projectiles = vec![Projectile { owner_id: 0, x: 100, y: 1, origin_x: 0, origin_y: 0 }];
    let r = bot.step(Event::StartTurn { heroes: vec![hero(7, 0, 1, 1, 5)], projectiles });
    assert!(matches!(r, Reaction::Send(_)));
}

#[test]
fn archive_lists_files_only() {
    let entries = vec![
        ArchiveEntry { name: "dir/".to_string(), is_file: false },
        ArchiveEntry { name: "dir/a.txt".to_string(), is_file: true },
        ArchiveEntry { name: "b.bin".to_string(), is_file: true },
    ];
    assert_eq!(listed_names(&entries), vec!["dir/a.txt".to_string(), "b.bin".to_string()]);
    assert_eq!(listed_names(&vec![]), Vec::<String>::new());
}
