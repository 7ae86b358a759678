# folkering

The logic of a small operating system's userland, as a library whose functions
are verified with Verus. A host program around it and the service loops of the
single programs stand in `app/`.

## What is in it

- **Agent** (`draug`, `draug_analysis`, `draug_store`, `dream`, `dream_prompt`,
  `mining`, `friction`, `daemon`): an agent that observes the system, works
  while the user is away and stays out of the way otherwise.
- **Code generation** (`refactor_step`, `refactor_loop`, `refactor_types`,
  `skill_prompt`, `hunt`, `phase_c`, `project`, `prevalidate`): prompts,
  judging of replies and builds, projects of several files, and a check of
  source text before it is built.
- **Local model** (`weights`, `tokenizer`, `forward`, `tensor`, `topk`, `prng`,
  `decode`, `first_blood`, `inference_wire`, `vfs`, `selftest`): tensor files, a
  byte-level tokenizer, the plan of a forward pass, and the wire format of
  requests.
- **Inference server** (`gguf_loader`, `model_weights`, `handlers`,
  `stream_handler`, `stream`, `chat`, `config`, `nucleus`, `debug_dump`):
  loading a model from the disk and generating answers, in one piece or as a
  stream with tools in between.
- **Desktop** (`window_manager`, `window_draw`, `widgets`, `counter`): windows,
  their widgets, and what is drawn.
- **Routing** (`intents`, `intent_types`, `intent_router`, `semantic_router`):
  which application handles a command or an intent.
- **Streaming client** (`streamer`, `protocol`): a remote machine that runs
  generated code.
- **Basics** (`bytes`, `text`, `chars`, `bump`).

## Conventions

Numbers with a fraction are held as IEEE 754 bit patterns, and confidences as
millionths; arithmetic on fractions is done in `app/`. A program that alternates
between work outside and decisions is a state machine: the library says what to
do next, the caller does it and reports the result.

Public proof functions state what holds of several functions together, such as
that decoding undoes encoding or that a stream comes to an end.
