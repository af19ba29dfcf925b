//! A game together with the commands that wait for it and the score it shows.

use vstd::prelude::*;
use crate::board::{alive, board, moved, score, seeded, slide, valid};
use crate::game::{Command, Game, Grid};

verus! {

/// A game, the commands that wait to be carried out, and the score as it
/// stood after the last command that was carried out.
pub struct App {
    game: Game,
    queue: Vec<Command>,
    score: i32,
}

impl App {
    /// The board of the game.
    pub closed spec fn grid(&self) -> Seq<Seq<int>> {
        self.game@
    }

    /// The game was alive when it was last looked at.
    pub closed spec fn lives(&self) -> bool {
        self.game.lives()
    }

    /// The commands that wait, the one that came last in front.
    pub closed spec fn waiting(&self) -> Seq<Command> {
        self.queue@
    }

    /// The score that is shown.
    pub closed spec fn shown(&self) -> int {
        self.score as int
    }

    /// The board is one that play can lead to, and a game that is over is so
    /// because its board is not alive.
    pub open spec fn wf(&self) -> bool {
        valid(self.grid()) && (!self.lives() ==> !alive(self.grid()))
    }

    /// A started game with no command waiting. The score shown is 0 until
    /// the first move.
    pub fn new() -> (app: App)
        ensures
            app.wf(),
            app.lives(),
            seeded(app.grid()),
            app.waiting().len() == 0,
            app.shown() == 0,
    {
        let game = Game::new();
        let mut app = App { game, queue: Vec::new(), score: 0 };
        app.game.start();
        app
    }

    /// Carries out the command that has waited longest, if the game is alive
    /// and a command waits. The command leaves the queue; unless it is `Nil`
    /// the game makes the move, and the score shown becomes the sum of the
    /// cells.
    pub fn next(&mut self)
        requires
            old(self).wf(),
        ensures
            final(self).wf(),
            !(old(self).lives() && old(self).waiting().len() > 0) ==> final(self).grid() == old(self).grid() && final(self).lives() == old(self).lives() && final(self).waiting() == old(self).waiting() && final(self).shown() == old(self).shown(),
            old(self).lives() && old(self).waiting().len() > 0 ==> {
                let top = old(self).waiting().last();
                &&& final(self).waiting() == old(self).waiting().drop_last()
                &&& top == Command::Nil ==> final(self).grid() == old(self).grid() && final(self).lives() && final(self).shown() == old(self).shown()
                &&& top != Command::Nil ==> moved(old(self).grid(), top, final(self).grid())
                    && final(self).lives() == alive(slide(old(self).grid(), top)) && final(self).shown() == score(final(self).grid())
            },
    {
        if self.is_alive() && !self.queue.is_empty() {
            match self.queue.pop() {
                Some(top) => {
                    if top != Command::Nil {
                        self.game.next_tick(top);
                        self.score = self.game.get_score();
                    }
                },
                None => {},
            }
        }
    }

    /// The score that is shown: the sum of the cells after the last move.
    pub fn get_score(&self) -> (s: i32)
        ensures
            s == self.shown(),
    {
        self.score
    }

    /// Whether the game was alive when it was last looked at.
    pub fn is_alive(&self) -> (r: bool)
        ensures
            r == self.lives(),
    {
        self.game.is_alive()
    }

    /// Lets `cmd` wait behind the commands that wait already. A game that is
    /// over takes no more commands.
    pub fn add_command(&mut self, cmd: Command)
        ensures
            final(self).grid() == old(self).grid(),
            final(self).lives() == old(self).lives(),
            final(self).shown() == old(self).shown(),
            final(self).waiting() == if old(self).lives() {
                old(self).waiting().insert(0, cmd)
            } else {
                old(self).waiting()
            },
    {
        if self.is_alive() {
            self.queue.insert(0, cmd)
        }
    }

    /// Starts a new game if this one is over: new board, no command waiting,
    /// score 0. A game that is alive goes on as it is.
    pub fn restart(&mut self)
        requires
            old(self).wf(),
        ensures
            final(self).wf(),
            old(self).lives() ==> final(self).grid() == old(self).grid() && final(self).lives()
                && final(self).waiting() == old(self).waiting() && final(self).shown() == old(self).shown(),
            !old(self).lives() ==> seeded(final(self).grid()) && final(self).lives() && final(self).waiting().len() == 0 && final(self).shown() == 0,
    {
        if !self.is_alive() {
            self.game = Game::new();
            self.game.start();
            self.queue = Vec::new();
            self.score = 0;
        }
    }

    /// The cells of the board.
    pub fn get_grid(&self) -> (g: Grid)
        ensures
            board(g) == self.grid(),
    {
        self.game.get_grid()
    }
}

} // verus!
