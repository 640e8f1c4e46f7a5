# rift_rumble_bot

A Discord bot that hands each participant of a League of Legends "Rift Rumble"
a random loadout: a champion, five items, two rune trees with their runes, two
summoner spells and a skill order. The static game data comes from Riot's Data
Dragon files.

* `src/` is the library, verified with Verus:
  * `entities/json.rs`: the JSON documents the loaders read, parsed with
    `serde_json`;
  * `entities/entity_loader.rs`: reading champions, items, runes and summoner
    spells out of those documents;
  * `entities/entity.rs`: the game data, the roster of participants, and the
    random draw of a loadout;
  * `discord/bot.rs`: what the bot does on each chat command;
  * `random.rs`: the random numbers and shuffles, taken from `rand`.
* `app/` is the program around it: reading the Data Dragon files and talking
  to Discord through `serenity`.
* `tests/` runs the library on concrete data.
