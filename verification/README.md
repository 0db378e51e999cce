# wishlist

A wish-list client whose wishes are stored encrypted in SurrealDB.

- `src/padding.rs`: block padding (`pad`, `unpad`) and the law that `unpad` undoes `pad`.
- `src/crypto.rs`: AES-128 encryption of byte strings, block by block, keyed by the
  first 16 bytes of the key; decryption gives back what encryption was given.
- `src/wish.rs`: wishes in plain and encrypted form; an encrypted wish reads back as
  the wish it was made from; the text that shows a wish.
- `src/session.rs`: the decisions of the client: the key made from a passphrase,
  menu answers, typed prices and links, which notifications concern the user,
  whether a wish is bought, and the database queries it sends.
- `app/`: the terminal program around the library (input, database, prices as floats).
