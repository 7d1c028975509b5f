use vstd::prelude::*;

verus! {

/// Settings of the Telegram channel.
#[derive(Debug, Clone)]
pub struct TelegramConfig {
    pub bot_token: String,
    pub webhook_url: Option<String>,
}

} // verus!
