# pluely

The core of a desktop assistant that talks to language-model providers, verified
with Verus.

`src/` is the library. It computes on plain values and makes no calls to the
outside but for a few pure functions of `serde_json` and `base64`:

- `text`, `string_map`, `bytes`: texts as sequences of characters, a map with
  texts for keys, and bytes as texts.
- `json`, `json_text`: JSON values, their compact text, and what replacing a
  placeholder in that text does to the value.
- `curl`: curl command lines as request templates.
- `template`, `messages`: `{{NAME}}` placeholders, and the messages of a request.
- `provider`: from a chat request to the HTTP request of a custom provider.
- `stream`: event streams and the pieces of an answer in them.
- `pluely`, `api`, `activate`, `call`: the hosted service, its requests and errors.
- `state`: the chats that are under way.
- `secrets`, `keychain`: what to ask of the system's keychain and what to make of
  its replies.
- `commands`: a chat from its attachments to its closing event.
- `migrations`: the versions of the database.

`app/` makes the calls: HTTP, keychain, database, environment. `tests/` runs the
library on concrete values.
