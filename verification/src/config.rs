//! Configuration: validation of the values read from the process
//! environment at startup.  Reading the environment itself is the
//! caller's; the rules about which values must be present, and how
//! the optional torrent credentials pair off, live here.

use vstd::prelude::*;

verus! {

/// The immutable configuration of the process.
#[derive(Debug, PartialEq, Eq)]
pub struct Config {
    /// Torrent-client RPC base URL (unparsed; the transport parses it).
    pub torrent_url: String,
    /// Optional basic-auth pair for the torrent client.
    pub torrent_auth: Option<(String, String)>,
    /// Push-notification service base URL.
    pub notify_url: String,
    /// Basic-auth user for the notification service.
    pub notify_user: String,
    /// Basic-auth password for the notification service.
    pub notify_password: String,
}

/// A fatal startup error: a required value is missing.
#[derive(Debug, PartialEq, Eq, Clone, Copy)]
pub enum ConfigError {
    MissingTorrentUrl,
    MissingNotifyUrl,
    MissingNotifyUser,
    MissingNotifyPassword,
}

impl Config {
    /// Builds the configuration from the six environment values, each
    /// `None` when the variable was unset.  Required values missing
    /// make an error, checked in the order the variables are read.
    /// The torrent credentials count only as a pair: if either half
    /// is missing, the client runs without authentication.
    pub fn from_env_values(
        turl: Option<String>,
        tuser: Option<String>,
        tpwd: Option<String>,
        nurl: Option<String>,
        nuser: Option<String>,
        npwd: Option<String>,
    ) -> (r: Result<Config, ConfigError>)
        ensures
            match r {
                Ok(c) => {
                    &&& turl is Some && nurl is Some && nuser is Some && npwd is Some
                    &&& c.torrent_url == turl->Some_0
                    &&& c.notify_url == nurl->Some_0
                    &&& c.notify_user == nuser->Some_0
                    &&& c.notify_password == npwd->Some_0
                    &&& c.torrent_auth == if tuser is Some && tpwd is Some {
                        Some((tuser->Some_0, tpwd->Some_0))
                    } else {
                        None::<(String, String)>
                    }
                },
                Err(e) => {
                    &&& (e is MissingTorrentUrl <==> turl is None)
                    &&& (e is MissingNotifyUrl <==> turl is Some && nurl is None)
                    &&& (e is MissingNotifyUser <==> turl is Some && nurl is Some
                        && nuser is None)
                    &&& (e is MissingNotifyPassword <==> turl is Some && nurl is Some
                        && nuser is Some && npwd is None)
                },
            },
    {
        let torrent_url = match turl {
            Some(u) => u,
            None => {
                return Err(ConfigError::MissingTorrentUrl);
            }
        };
        let notify_url = match nurl {
            Some(u) => u,
            None => {
                return Err(ConfigError::MissingNotifyUrl);
            }
        };
        let notify_user = match nuser {
            Some(u) => u,
            None => {
                return Err(ConfigError::MissingNotifyUser);
            }
        };
        let notify_password = match npwd {
            Some(u) => u,
            None => {
                return Err(ConfigError::MissingNotifyPassword);
            }
        };
        let torrent_auth = match (tuser, tpwd) {
            (Some(u), Some(p)) => Some((u, p)),
            _ => None,
        };
        Ok(Config { torrent_url, torrent_auth, notify_url, notify_user, notify_password })
    }
}

} // verus!
