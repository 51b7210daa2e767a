//! The games in progress, one for each player.

use vstd::prelude::*;
use crate::game::{Game, GameView, GuessResult};
use crate::scoring::GuessError;

verus! {

/// Whether no identifier occurs twice.
pub open spec fn distinct(ids: Seq<Seq<char>>) -> bool {
    forall|i: int, j: int| 0 <= i < j < ids.len() ==> ids[i] != ids[j]
}

/// The game of each identifier, where game `i` belongs to identifier `i`.
pub open spec fn table(ids: Seq<Seq<char>>, games: Seq<GameView>) -> Map<Seq<char>, GameView> {
    Map::new(|id: Seq<char>| ids.contains(id), |id: Seq<char>| games[ids.index_of(id)])
}

/// The table holds game `i` under identifier `i`.
pub proof fn lemma_table_at(ids: Seq<Seq<char>>, games: Seq<GameView>, i: int)
    requires
        distinct(ids),
        0 <= i < ids.len(),
    ensures
        ids.contains(ids[i]),
        ids.index_of(ids[i]) == i,
        table(ids, games).contains_key(ids[i]),
        table(ids, games)[ids[i]] == games[i],
{
    assert(ids.contains(ids[i]));
    let j = ids.index_of(ids[i]);
    assert(0 <= j < ids.len() && ids[j] == ids[i]);
}

/// A game added under a new identifier is one more entry of the table.
pub proof fn lemma_table_push(
    ids: Seq<Seq<char>>,
    games: Seq<GameView>,
    id: Seq<char>,
    game: GameView,
)
    requires
        distinct(ids),
        ids.len() == games.len(),
        !ids.contains(id),
    ensures
        distinct(ids.push(id)),
        table(ids.push(id), games.push(game)) == table(ids, games).insert(id, game),
{
    let more = ids.push(id);
    assert forall|i: int, j: int| 0 <= i < j < more.len() implies more[i] != more[j] by {
        if j == ids.len() {
            assert(ids.contains(ids[i]));
        }
    }
    assert forall|key: Seq<char>| more.contains(key) <==> (key == id || ids.contains(key)) by {
        if ids.contains(key) {
            assert(more[ids.index_of(key)] == key);
        }
        if key == id {
            assert(more[ids.len() as int] == key);
        }
        if more.contains(key) {
            let k = more.index_of(key);
            if k < ids.len() {
                assert(ids[k] == key);
            }
        }
    }
    assert forall|key: Seq<char>| more.contains(key) implies #[trigger] table(
        more,
        games.push(game),
    )[key] == table(ids, games).insert(id, game)[key] by {
        let k = more.index_of(key);
        if key == id {
            lemma_table_at(more, games.push(game), ids.len() as int);
        } else {
            assert(ids[k] == key);
            lemma_table_at(ids, games, k);
        }
    }
    assert(table(more, games.push(game)) =~= table(ids, games).insert(id, game));
}

/// A change of game `i` is a change of the table at identifier `i` alone.
pub proof fn lemma_table_update(ids: Seq<Seq<char>>, games: Seq<GameView>, i: int, game: GameView)
    requires
        distinct(ids),
        ids.len() == games.len(),
        0 <= i < ids.len(),
    ensures
        table(ids, games.update(i, game)) == table(ids, games).insert(ids[i], game),
{
    lemma_table_at(ids, games, i);
    assert forall|key: Seq<char>| ids.contains(key) implies #[trigger] table(
        ids,
        games.update(i, game),
    )[key] == table(ids, games).insert(ids[i], game)[key] by {
        let k = ids.index_of(key);
        lemma_table_at(ids, games, k);
    }
    assert(table(ids, games.update(i, game)) =~= table(ids, games).insert(ids[i], game));
}

/// The games in progress: at most one for each identifier.
pub struct GameRegistry {
    ids: Vec<String>,
    games: Vec<Game>,
}

impl View for GameRegistry {
    type V = Map<Seq<char>, GameView>;

    open spec fn view(&self) -> Map<Seq<char>, GameView> {
        table(self.id_seq(), self.game_seq())
    }
}

impl GameRegistry {
    /// The identifiers, in the order in which their games were made.
    pub closed spec fn id_seq(&self) -> Seq<Seq<char>> {
        Seq::new(self.ids@.len(), |i: int| self.ids@[i]@)
    }

    /// The games, in the order in which they were made.
    pub closed spec fn game_seq(&self) -> Seq<GameView> {
        Seq::new(self.games@.len(), |i: int| self.games@[i]@)
    }

    /// The identifiers and the games stand side by side, and no identifier
    /// occurs twice.
    pub closed spec fn wf(&self) -> bool {
        self.ids@.len() == self.games@.len() && distinct(self.id_seq())
    }

    /// A registry without games.
    pub fn new() -> (registry: Self)
        ensures
            registry.wf(),
            registry.id_seq() == Seq::<Seq<char>>::empty(),
            registry.game_seq() == Seq::<GameView>::empty(),
            registry@ == Map::<Seq<char>, GameView>::empty(),
    {
        let registry = GameRegistry { ids: Vec::new(), games: Vec::new() };
        proof {
            assert(registry.id_seq() =~= Seq::<Seq<char>>::empty());
            assert(registry.game_seq() =~= Seq::<GameView>::empty());
            assert(registry@ =~= Map::<Seq<char>, GameView>::empty());
        }
        registry
    }

    /// Where the game of `id` stands, if it has one.
    pub fn find(&self, id: &str) -> (r: Option<usize>)
        requires
            self.wf(),
        ensures
            match r {
                Some(i) => i < self.id_seq().len() && self.id_seq()[i as int] == id@
                    && self@.contains_key(id@) && self@[id@] == self.game_seq()[i as int],
                None => !self.id_seq().contains(id@) && !self@.contains_key(id@),
            },
    {
        let wanted: String = id.to_owned();
        let mut i: usize = 0;
        while i < self.ids.len()
            invariant
                self.wf(),
                wanted@ == id@,
                i <= self.ids@.len(),
                forall|k: int| 0 <= k < i ==> self.id_seq()[k] != id@,
            decreases self.ids@.len() - i,
        {
            if self.ids[i] == wanted {
                proof {
                    lemma_table_at(self.id_seq(), self.game_seq(), i as int);
                }
                return Some(i);
            }
            i += 1;
        }
        None
    }

    /// The number of games.
    pub fn len(&self) -> (n: usize)
        requires
            self.wf(),
        ensures
            n == self.id_seq().len(),
            n == self.game_seq().len(),
    {
        self.ids.len()
    }

    /// The game of `id`, if it has one.
    pub fn get(&self, id: &str) -> (r: Option<&Game>)
        requires
            self.wf(),
        ensures
            match r {
                Some(game) => self@.contains_key(id@) && self@[id@] == game@,
                None => !self@.contains_key(id@),
            },
    {
        match self.find(id) {
            Some(i) => Some(&self.games[i]),
            None => None,
        }
    }

    /// Gives `id` a fresh game with the answer `answer` unless it has a game
    /// already, which then stays as it is. Says whether a game was made.
    pub fn get_or_create(&mut self, id: &str, answer: &str) -> (created: bool)
        requires
            old(self).wf(),
        ensures
            final(self).wf(),
            created == !old(self)@.contains_key(id@),
            final(self)@ == if created {
                old(self)@.insert(id@, GameView::fresh(answer@))
            } else {
                old(self)@
            },
    {
        if self.find(id).is_some() {
            return false;
        }
        self.ids.push(id.to_owned());
        self.games.push(Game::new(answer));
        proof {
            assert(self.id_seq() =~= old(self).id_seq().push(id@));
            assert(self.game_seq() =~= old(self).game_seq().push(GameView::fresh(answer@)));
            lemma_table_push(
                old(self).id_seq(),
                old(self).game_seq(),
                id@,
                GameView::fresh(answer@),
            );
        }
        true
    }

    /// Restarts the game of `id` with a new answer, if it has one. Says
    /// whether it had.
    pub fn replace(&mut self, id: &str, new_answer: &String) -> (found: bool)
        requires
            old(self).wf(),
        ensures
            final(self).wf(),
            found == old(self)@.contains_key(id@),
            final(self)@ == if found {
                old(self)@.insert(id@, GameView::fresh(new_answer@))
            } else {
                old(self)@
            },
    {
        match self.find(id) {
            Some(i) => {
                self.games[i].restart(new_answer);
                proof {
                    assert(self.id_seq() =~= old(self).id_seq());
                    assert(self.game_seq() =~= old(self).game_seq().update(
                        i as int,
                        GameView::fresh(new_answer@),
                    ));
                    lemma_table_update(
                        old(self).id_seq(),
                        old(self).game_seq(),
                        i as int,
                        GameView::fresh(new_answer@),
                    );
                }
                true
            },
            None => false,
        }
    }

    /// Submits a guess to the game of `id`, after the dictionary was asked
    /// for the word. Without a game there is nothing to submit to.
    pub fn submit(&mut self, id: &str, in_dictionary: bool, word: &String) -> (r: Option<
        Result<GuessResult, GuessError>,
    >)
        requires
            old(self).wf(),
        ensures
            final(self).wf(),
            (r is Some) == old(self)@.contains_key(id@),
            match r {
                None => final(self)@ == old(self)@,
                Some(Err(e)) => final(self)@ == old(self)@ && if in_dictionary {
                    old(self)@[id@].refusal(word@) == Some(e)
                } else {
                    e == GuessError::NonexistentWordError
                },
                Some(Ok(result)) => {
                    let game = old(self)@[id@];
                    &&& in_dictionary
                    &&& game.refusal(word@) is None
                    &&& final(self)@ == old(self)@.insert(id@, game.after_guess(word@))
                    &&& result.reports(game.scored_guess(word@), game.history.len())
                },
            },
    {
        match self.find(id) {
            Some(i) => {
                let r = self.games[i].submit_word(in_dictionary, word);
                proof {
                    assert(self.id_seq() =~= old(self).id_seq());
                    assert(self.game_seq() =~= old(self).game_seq().update(
                        i as int,
                        self.games@[i as int]@,
                    ));
                    lemma_table_update(
                        old(self).id_seq(),
                        old(self).game_seq(),
                        i as int,
                        self.games@[i as int]@,
                    );
                    if r is Err {
                        assert(self.game_seq() =~= old(self).game_seq());
                    }
                }
                Some(r)
            },
            None => None,
        }
    }
}

} // verus!
