# mamba_prefill

A Mamba language model on top of [candle](https://github.com/huggingface/candle), verified with
Verus. A prompt is processed in one pass, layer by layer (prefill); after it, tokens are generated
one by one from a state of fixed size.

* `src/` is the library.
  * `config`, `state`, `error`: the sizes of a model, what it remembers, what can go wrong.
  * `recurrence`, `net`: what a block, a layer and the model compute, as relations between sequences
    of numbers, and the laws that follow. The central ones: generating a token after a prompt is
    processing the longer prompt (`law_generate_extends_prefill`); what a sequence may come to
    layer by layer, it may come to token by token, and the other way round
    (`law_cascade_is_walk`, `law_walk_is_cascade`); no logits depend on later tokens
    (`law_complete_is_causal`).
  * `settled`: what follows where every operation on numbers gives one result. Two calls then agree
    number by number: a pass over a sequence and the steps of its tokens (`law_pass_is_steps`), a
    longer prompt and a prompt with generated tokens (`law_generate_equals_prefill`), a scan and
    the scans of its prefixes (`law_scan_is_causal`).
  * `exact`: what follows where the operations are exact: the scan is linear in its input
    (`law_scan_is_linear`), and old states only decay (`law_state_decays`).
  * `success`: where one call succeeds, others do: a pass where steps did and steps where a pass did
    (`law_pass_goes_as_steps`, `law_layer_steps_as_pass`), a prefill where all logits could be
    computed (`law_prefill_goes_as_all`), generation after a prefill
    (`law_generate_goes_after_prefill`).
  * `scan`, `block`, `residual`, `model`: the code, with contracts over those relations.
  * `tensor`, `layers`, `weights`: the operations of `candle_core` and `candle_nn` that the code
    calls, with what is taken to be true of them. These contracts are not proved.
  * `array`, `rows`, `sizes`: shapes and indices.
* `tests/` runs the library with candle.
* `app/` offers the model as a candle `Module`, with a configuration that can be deserialized.

Floating-point results depend on the machine in their last bits. The contracts therefore say which
operation gives each number from which others, not which bits it has; everything that only moves
numbers is stated exactly.
