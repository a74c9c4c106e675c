# insights

The telemetry logic of the Insights desktop monitor (CPU, GPU, RAM, VRAM and
Ollama metrics), written in Verus with its behaviour stated in contracts and
proved. `src/` is the verified library; `app/` is the Tauri shell around it:
the sampling loops, the inspecting HTTP proxy and the desktop window.
