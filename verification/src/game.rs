//! The game-server descriptor dispatched to matched clients, and the port
//! through which a server is obtained.

use vstd::prelude::*;

verus! {

/// A located game server: its identifier, host and port.
#[derive(Clone, Debug)]
pub struct Game {
    pub id: String,
    pub server_host: String,
    pub server_port: u16,
}

impl Game {
    /// A descriptor with every field given.
    pub fn new(server_host: String, server_port: u16, game_id: String) -> (r: Game)
        ensures
            r.server_host == server_host,
            r.server_port == server_port,
            r.id == game_id,
    {
        Game { id: game_id, server_host, server_port }
    }
}

/// The port a queue obtains game servers through.  The transport implements
/// it against the real locator; the fake below serves tests and local runs.
pub trait GameProvider {
    fn get_game_server(&self) -> Result<Game, String>;
}

/// A provider that always hands out the same local server.
pub struct FakeGame;

impl GameProvider for FakeGame {
    fn get_game_server(&self) -> (r: Result<Game, String>)
        ensures
            r matches Ok(g) && g.server_host@ == "localhost"@ && g.server_port == 25565 && g.id@
                == "test"@,
    {
        let game = Game::new("localhost".to_owned(), 25565, "test".to_owned());
        Ok(game)
    }
}

/// The earliest draft's name for the same provider.
pub struct FakeGameProvider;

impl GameProvider for FakeGameProvider {
    fn get_game_server(&self) -> (r: Result<Game, String>)
        ensures
            r matches Ok(g) && g.server_host@ == "localhost"@ && g.server_port == 25565 && g.id@
                == "test"@,
    {
        let game = Game::new("localhost".to_owned(), 25565, "test".to_owned());
        Ok(game)
    }
}

/// The error body returned to a joining client.
#[derive(Clone, Debug)]
pub struct QueueError {
    pub error: String,
}

impl QueueError {
    /// Wraps an error message.
    pub fn new(error: String) -> (r: QueueError)
        ensures
            r.error == error,
    {
        QueueError { error }
    }
}

} // verus!
