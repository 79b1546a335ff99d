//! The bot's decisions: what it answers to each message of the server, and the
//! boards it keeps between messages.
use vstd::prelude::*;

use crate::grid::{at, in_grid, COLS, ROWS};
use crate::helper::{
    calculate_score, first_step, hero_on_board, initialize_walls, is_target, next_move, scores_fit,
    score_fits, turn_score, walled, walls_on_board,
};
use crate::protocol::{Hero, Projectile, Wall};

verus! {

/// The commands of the game protocol.
#[derive(Clone, Copy, Debug, PartialEq, Eq, Structural)]
pub enum Command {
    Hello,
    Login,
    Error,
    Ready,
    Practice,
    StartMatch,
    StartTurn,
    Move,
    Shoot,
    EndMatch,
}

/// A message of the server, with the arguments the bot reads.
#[derive(Debug, PartialEq, Eq)]
pub enum Event {
    Hello,
    Login,
    Error,
    Ready,
    Practice,
    StartMatch { your_player_id: i32, walls: Vec<Wall> },
    StartTurn { heroes: Vec<Hero>, projectiles: Vec<Projectile> },
    Move,
    Shoot,
    EndMatch,
}

/// A message the bot sends.
#[derive(Clone, Copy, Debug, PartialEq, Eq)]
pub enum Outgoing {
    /// Log in under the bot's name.
    Login,
    /// Ask for a practice match.
    Practice,
    /// Order a hero to move to, or shoot at, `(x, y)`.
    Order { command: Command, hero_id: i32, x: i64, y: i64 },
}

/// Why the bot gives up.
#[derive(Clone, Copy, Debug, PartialEq, Eq)]
pub enum Fault {
    /// The server sent a command that only a client sends.
    Unexpected(Command),
    /// The message names a position off the board, or numbers the bot cannot compute with.
    OutOfRange,
}

/// What the bot does with a message.
#[derive(Debug, PartialEq, Eq)]
pub enum Reaction {
    /// Send these messages, in order.
    Send(Vec<Outgoing>),
    /// Nothing to send.
    Idle,
    /// Leave the game.
    Stop,
    /// Give up on the game.
    Fail(Fault),
}

/// The id the bot plays turns as: the id the server assigns at the start of a match
/// is not kept from one message to the next, so turns are always played as player 0.
pub open spec fn turn_player() -> i32 {
    0
}

/// The heroes that do not belong to `owner`.
pub open spec fn opponents(heroes: Seq<Hero>, owner: i32) -> Seq<Hero>
    decreases heroes.len(),
{
    if heroes.len() == 0 {
        Seq::empty()
    } else if heroes.last().owner_id != owner {
        opponents(heroes.drop_last(), owner).push(heroes.last())
    } else {
        opponents(heroes.drop_last(), owner)
    }
}

/// The projectiles that do not belong to `owner`.
pub open spec fn hostile(projectiles: Seq<Projectile>, owner: i32) -> Seq<Projectile>
    decreases projectiles.len(),
{
    if projectiles.len() == 0 {
        Seq::empty()
    } else if projectiles.last().owner_id != owner {
        hostile(projectiles.drop_last(), owner).push(projectiles.last())
    } else {
        hostile(projectiles.drop_last(), owner)
    }
}

/// The second hero is the bot's own.
pub open spec fn second_is_own(heroes: Seq<Hero>) -> bool {
    heroes.len() > 1 && heroes[1].owner_id == turn_player()
}

/// A turn can be played: the board can be scored, the first hero (and the second,
/// when it is the bot's) stands on the board, and the second hero's row plus 3 is an
/// `i32`.
pub open spec fn turn_playable(path: [[i32; COLS]; ROWS], heroes: Seq<Hero>, projectiles: Seq<Projectile>) -> bool {
    &&& score_fits(path, opponents(heroes, turn_player()), hostile(projectiles, turn_player()))
    &&& heroes.len() > 0
    &&& hero_on_board(heroes[0])
    &&& heroes.len() > 1 ==> heroes[1].y <= i32::MAX - 3
    &&& second_is_own(heroes) ==> hero_on_board(heroes[1])
}

/// `o` is the order for hero `h` this turn: shoot at the third hero when there are
/// three heroes and `h` is ready to fire, else move toward its target; a move names the
/// row of the next cell as `x` and its column as `y`.
pub open spec fn order_for(
    path: [[i32; COLS]; ROWS],
    score: [[i32; COLS]; ROWS],
    heroes: Seq<Hero>,
    h: Hero,
    o: Outgoing,
) -> bool {
    if heroes.len() > 2 && h.cooldown == 0 {
        o == Outgoing::Order {
            command: Command::Shoot,
            hero_id: h.id,
            x: heroes[2].x as i64,
            y: heroes[2].y as i64,
        }
    } else {
        exists|next: (usize, usize), t: (usize, usize)|
            #[trigger] is_target(path, score, (h.y as usize, h.x as usize), t) && #[trigger] first_step(
                path,
                (h.y as usize, h.x as usize),
                t,
                next,
            ) && o == (Outgoing::Order {
                command: Command::Move,
                hero_id: h.id,
                x: next.0 as i64,
                y: next.1 as i64,
            })
    }
}

/// The messages sent for a turn: one order for the first hero, and one for the second
/// when it is the bot's own.
pub open spec fn turn_orders(
    path: [[i32; COLS]; ROWS],
    score: [[i32; COLS]; ROWS],
    heroes: Seq<Hero>,
    orders: Seq<Outgoing>,
) -> bool {
    &&& orders.len() == if second_is_own(heroes) {
        2int
    } else {
        1int
    }
    &&& order_for(path, score, heroes, heroes[0], orders[0])
    &&& second_is_own(heroes) ==> order_for(path, score, heroes, heroes[1], orders[1])
}

/// The bot's boards: the path matrix (where it may walk, walls at `-50`) and the score
/// matrix of the last turn.
pub struct Bot {
    pub path_matrix: [[i32; COLS]; ROWS],
    pub score_matrix: [[i32; COLS]; ROWS],
}

/// What a turn does to the bot and what it answers: the path matrix stays; the score
/// matrix is rescored when the board can be scored and kept otherwise; the heroes get
/// their orders when the turn can be played, and the bot gives up otherwise.
pub open spec fn turn_played(
    before: Bot,
    after: Bot,
    heroes: Seq<Hero>,
    projectiles: Seq<Projectile>,
    r: Reaction,
) -> bool {
    let enemies = opponents(heroes, turn_player());
    let threats = hostile(projectiles, turn_player());
    &&& after.path_matrix == before.path_matrix
    &&& score_fits(before.path_matrix, enemies, threats) ==> forall|p: (usize, usize)|
        in_grid(p) ==> #[trigger] at(after.score_matrix, p) == turn_score(before.path_matrix, enemies, threats, p)
    &&& !score_fits(before.path_matrix, enemies, threats) ==> after.score_matrix == before.score_matrix
    &&& turn_playable(before.path_matrix, heroes, projectiles) ==> (r matches Reaction::Send(orders) && turn_orders(
        before.path_matrix,
        after.score_matrix,
        heroes,
        orders@,
    ))
    &&& !turn_playable(before.path_matrix, heroes, projectiles) ==> r == Reaction::Fail(Fault::OutOfRange)
}

fn opponents_of(heroes: &Vec<Hero>) -> (r: Vec<Hero>)
    ensures
        r@ == opponents(heroes@, turn_player()),
{
    let mut r: Vec<Hero> = Vec::new();
    let mut i: usize = 0;
    while i < heroes.len()
        invariant
            i <= heroes@.len(),
            r@ == opponents(heroes@.take(i as int), turn_player()),
        decreases heroes@.len() - i,
    {
        assert(heroes@.take(i + 1).drop_last() =~= heroes@.take(i as int));
        if heroes[i].owner_id != 0 {
            r.push(heroes[i]);
        }
        i = i + 1;
    }
    assert(heroes@.take(heroes@.len() as int) =~= heroes@);
    r
}

fn hostile_of(projectiles: &Vec<Projectile>) -> (r: Vec<Projectile>)
    ensures
        r@ == hostile(projectiles@, turn_player()),
{
    let mut r: Vec<Projectile> = Vec::new();
    let mut i: usize = 0;
    while i < projectiles.len()
        invariant
            i <= projectiles@.len(),
            r@ == hostile(projectiles@.take(i as int), turn_player()),
        decreases projectiles@.len() - i,
    {
        assert(projectiles@.take(i + 1).drop_last() =~= projectiles@.take(i as int));
        if projectiles[i].owner_id != 0 {
            r.push(projectiles[i]);
        }
        i = i + 1;
    }
    assert(projectiles@.take(projectiles@.len() as int) =~= projectiles@);
    r
}

fn hero_on_board_exec(h: &Hero) -> (b: bool)
    ensures
        b == hero_on_board(*h),
{
    0 <= h.y && h.y < ROWS as i32 && 0 <= h.x && h.x < COLS as i32
}

fn walls_on_board_exec(walls: &Vec<Wall>) -> (b: bool)
    ensures
        b == walls_on_board(walls@),
{
    let mut i: usize = 0;
    while i < walls.len()
        invariant
            i <= walls@.len(),
            forall|j: int|
                0 <= j < i ==> 0 <= (#[trigger] walls@[j]).y < ROWS && 0 <= walls@[j].x < COLS,
        decreases walls@.len() - i,
    {
        let w = walls[i];
        if !(0 <= w.y && w.y < ROWS as i32 && 0 <= w.x && w.x < COLS as i32) {
            return false;
        }
        i = i + 1;
    }
    true
}

/// The order for hero `h` once its move is known.
fn order(heroes: &Vec<Hero>, h: Hero, next: (usize, usize)) -> (o: Outgoing)
    requires
        heroes@.len() > 0,
    ensures
        heroes@.len() > 2 && h.cooldown == 0 ==> o == (Outgoing::Order {
            command: Command::Shoot,
            hero_id: h.id,
            x: heroes@[2].x as i64,
            y: heroes@[2].y as i64,
        }),
        !(heroes@.len() > 2 && h.cooldown == 0) ==> o == (Outgoing::Order {
            command: Command::Move,
            hero_id: h.id,
            x: next.0 as i64,
            y: next.1 as i64,
        }),
{
    if heroes.len() > 2 && h.cooldown == 0 {
        Outgoing::Order { command: Command::Shoot, hero_id: h.id, x: heroes[2].x as i64, y: heroes[2].y as i64 }
    } else {
        Outgoing::Order { command: Command::Move, hero_id: h.id, x: next.0 as i64, y: next.1 as i64 }
    }
}

impl Bot {
    /// A bot before any match: every cell open at price 1, every score 0.
    pub fn new() -> (bot: Bot)
        ensures
            forall|p: (usize, usize)| in_grid(p) ==> #[trigger] at(bot.path_matrix, p) == 1,
            forall|p: (usize, usize)| in_grid(p) ==> #[trigger] at(bot.score_matrix, p) == 0,
    {
        Bot { path_matrix: [[1; COLS]; ROWS], score_matrix: [[0; COLS]; ROWS] }
    }

    /// Plays one turn.
    fn play_turn(&mut self, heroes: &Vec<Hero>, projectiles: &Vec<Projectile>) -> (r: Reaction)
        ensures
            turn_played(*old(self), *final(self), heroes@, projectiles@, r),
    {
        let enemies = opponents_of(heroes);
        let hostile_projectiles = hostile_of(projectiles);
        if !scores_fit(&self.path_matrix, &enemies, &hostile_projectiles) {
            return Reaction::Fail(Fault::OutOfRange);
        }
        calculate_score(&mut self.score_matrix, &self.path_matrix, enemies, hostile_projectiles);
        if heroes.len() == 0 {
            return Reaction::Fail(Fault::OutOfRange);
        }
        let h0 = heroes[0];
        if !hero_on_board_exec(&h0) {
            return Reaction::Fail(Fault::OutOfRange);
        }
        if heroes.len() > 1 && heroes[1].y > i32::MAX - 3 {
            return Reaction::Fail(Fault::OutOfRange);
        }
        let own_second = heroes.len() > 1 && heroes[1].owner_id == 0;
        if own_second && !hero_on_board_exec(&heroes[1]) {
            return Reaction::Fail(Fault::OutOfRange);
        }
        let next0 = next_move(h0.x as usize, h0.y as usize, &self.path_matrix, &self.score_matrix);
        let order0 = order(heroes, h0, next0);
        let mut orders: Vec<Outgoing> = Vec::new();
        orders.push(order0);
        if own_second {
            let h1 = heroes[1];
            let next1 = next_move(h1.x as usize, h1.y as usize, &self.path_matrix, &self.score_matrix);
            let order1 = order(heroes, h1, next1);
            orders.push(order1);
        }
        Reaction::Send(orders)
    }

    /// Answers one message of the server, updating the boards.
    ///
    /// `Hello` is answered by a login and `Ready` by a request for a practice match;
    /// `Error` ends the game; a command that only a client sends is a fault. At the
    /// start of a match the walls are drawn into both boards; at the start of a turn the
    /// board is scored and every hero of the bot is given an order.
    pub fn step(&mut self, event: Event) -> (r: Reaction)
        ensures
            match event {
                Event::Hello => (r matches Reaction::Send(v) && v@ == seq![Outgoing::Login]) && *final(self) == *old(self),
                Event::Ready => (r matches Reaction::Send(v) && v@ == seq![Outgoing::Practice]) && *final(self) == *old(self),
                Event::Error => r == Reaction::Stop && *final(self) == *old(self),
                Event::EndMatch => r == Reaction::Idle && *final(self) == *old(self),
                Event::Login => r == Reaction::Fail(Fault::Unexpected(Command::Login)) && *final(self) == *old(self),
                Event::Practice => r == Reaction::Fail(Fault::Unexpected(Command::Practice)) && *final(self) == *old(self),
                Event::Move => r == Reaction::Fail(Fault::Unexpected(Command::Move)) && *final(self) == *old(self),
                Event::Shoot => r == Reaction::Fail(Fault::Unexpected(Command::Shoot)) && *final(self) == *old(self),
                Event::StartMatch { your_player_id, walls } => if walls_on_board(walls@) {
                    &&& r == Reaction::Idle
                    &&& forall|p: (usize, usize)|
                        in_grid(p) ==> #[trigger] at(final(self).path_matrix, p) == walled(
                            old(self).path_matrix,
                            walls@,
                            p,
                        ) && at(final(self).score_matrix, p) == walled(old(self).score_matrix, walls@, p)
                } else {
                    r == Reaction::Fail(Fault::OutOfRange) && *final(self) == *old(self)
                },
                Event::StartTurn { heroes, projectiles } => turn_played(
                    *old(self),
                    *final(self),
                    heroes@,
                    projectiles@,
                    r,
                ),
            },
    {
        match event {
            Event::Hello => Reaction::Send(vec![Outgoing::Login]),
            Event::Login => Reaction::Fail(Fault::Unexpected(Command::Login)),
            Event::Error => Reaction::Stop,
            Event::Ready => Reaction::Send(vec![Outgoing::Practice]),
            Event::Practice => Reaction::Fail(Fault::Unexpected(Command::Practice)),
            Event::StartMatch { your_player_id, walls } => {
                if !walls_on_board_exec(&walls) {
                    return Reaction::Fail(Fault::OutOfRange);
                }
                initialize_walls(&mut self.path_matrix, &walls);
                initialize_walls(&mut self.score_matrix, &walls);
                Reaction::Idle
            },
            Event::StartTurn { heroes, projectiles } => self.play_turn(&heroes, &projectiles),
            Event::Move => Reaction::Fail(Fault::Unexpected(Command::Move)),
            Event::Shoot => Reaction::Fail(Fault::Unexpected(Command::Shoot)),
            Event::EndMatch => Reaction::Idle,
        }
    }
}

} // verus!
